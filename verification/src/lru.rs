//! The size-bounded cache policy. Entry metadata lives in the shared
//! metadata store under keys prefixed with the instance id: a total-size
//! counter, an index of live entries sorted by access time, and one hash per
//! entry. Payloads live in the instance's own blob store. Admitting an entry
//! evicts least-recently-used entries until the total fits the limit.

use crate::blob::BlobStore;
use crate::data::{spec_data_bytes, spec_data_len, CacheData};
use crate::entry::CacheEntry;
use crate::store::{zdistinct, EntryFields, FieldsSnap, MetaStore};
use crate::strutil::{
    is_tagged, lemma_tagged_reconstruct, lemma_tagged_roundtrip, strip_tag, tag_key, tag_rest,
    tagged,
};
use vstd::prelude::*;
use vstd::string::*;

verus! {

/// The counter key of instance `id`.
pub open spec fn total_key(id: Seq<char>) -> Seq<char> {
    tagged(id, '_', "total_size"@)
}

/// The entry-index key of instance `id`.
pub open spec fn index_key(id: Seq<char>) -> Seq<char> {
    tagged(id, '_', "cache_keys"@)
}

/// The abstract state of one instance: its live entries, in index order,
/// as (prefixed key, size, access time), and its stored payloads keyed by
/// plain cache key.
#[verifier::ext_equal]
pub ghost struct LruModel {
    pub entries: Seq<(Seq<char>, u64, i64)>,
    pub blobs: Map<Seq<char>, Seq<u8>>,
}

/// The sum of the entry sizes.
pub open spec fn sum_sizes(es: Seq<(Seq<char>, u64, i64)>) -> int
    decreases es.len(),
{
    if es.len() == 0 {
        0
    } else {
        sum_sizes(es.drop_last()) + es.last().1
    }
}

/// Whether some entry carries the prefixed key `m`.
pub open spec fn has_entry(es: Seq<(Seq<char>, u64, i64)>, m: Seq<char>) -> bool {
    exists|i: int| 0 <= i < es.len() && es[i].0 == m
}

/// The position of the entry carrying `m`.
pub open spec fn entry_idx(es: Seq<(Seq<char>, u64, i64)>, m: Seq<char>) -> int {
    choose|i: int| 0 <= i < es.len() && es[i].0 == m
}

/// The position of the first entry with the least access time.
pub open spec fn min_atime_idx(es: Seq<(Seq<char>, u64, i64)>) -> int
    decreases es.len(),
{
    if es.len() <= 1 {
        0
    } else {
        let j = min_atime_idx(es.drop_last());
        if es.last().2 < es[j].2 {
            es.len() - 1
        } else {
            j
        }
    }
}

pub proof fn lemma_min_atime_props(es: Seq<(Seq<char>, u64, i64)>)
    requires
        es.len() > 0,
    ensures
        0 <= min_atime_idx(es) < es.len(),
        forall|i: int| 0 <= i < es.len() ==> es[min_atime_idx(es)].2 <= #[trigger] es[i].2,
    decreases es.len(),
{
    if es.len() > 1 {
        lemma_min_atime_props(es.drop_last());
        assert(forall|i: int| 0 <= i < es.len() - 1 ==> es.drop_last()[i] == es[i]);
    }
}

pub proof fn lemma_sum_nonneg(es: Seq<(Seq<char>, u64, i64)>)
    ensures
        sum_sizes(es) >= 0,
    decreases es.len(),
{
    if es.len() > 0 {
        lemma_sum_nonneg(es.drop_last());
    }
}

pub proof fn lemma_sum_remove(es: Seq<(Seq<char>, u64, i64)>, i: int)
    requires
        0 <= i < es.len(),
    ensures
        sum_sizes(es.remove(i)) == sum_sizes(es) - es[i].1,
    decreases es.len(),
{
    if i == es.len() - 1 {
        assert(es.remove(i) =~= es.drop_last());
    } else {
        assert(es.remove(i).drop_last() =~= es.drop_last().remove(i));
        assert(es.drop_last()[i] == es[i]);
        lemma_sum_remove(es.drop_last(), i);
        assert(es.remove(i).last() == es.last());
    }
}

pub proof fn lemma_sum_update(es: Seq<(Seq<char>, u64, i64)>, i: int, e: (Seq<char>, u64, i64))
    requires
        0 <= i < es.len(),
    ensures
        sum_sizes(es.update(i, e)) == sum_sizes(es) - es[i].1 + e.1,
    decreases es.len(),
{
    if i == es.len() - 1 {
        assert(es.update(i, e).drop_last() =~= es.drop_last());
        assert(es.update(i, e).last() == e);
    } else {
        assert(es.update(i, e).drop_last() =~= es.drop_last().update(i, e));
        assert(es.drop_last()[i] == es[i]);
        lemma_sum_update(es.drop_last(), i, e);
        assert(es.update(i, e).last() == es.last());
    }
}

/// Each entry's size is at most the sum.
pub proof fn lemma_sum_elem(es: Seq<(Seq<char>, u64, i64)>, i: int)
    requires
        0 <= i < es.len(),
    ensures
        es[i].1 <= sum_sizes(es),
{
    lemma_sum_remove(es, i);
    lemma_sum_nonneg(es.remove(i));
}

/// The first-minimum position is the same whether scores are read from the
/// index pairs or from the derived entry triples.
proof fn lemma_min_bridge(zl: Seq<(Seq<char>, i64)>, es: Seq<(Seq<char>, u64, i64)>)
    requires
        es.len() == zl.len(),
        forall|i: int| 0 <= i < zl.len() ==> (#[trigger] es[i]).2 == zl[i].1,
    ensures
        zl.len() > 0 ==> min_atime_idx(es) == crate::store::zmin_idx(zl),
    decreases zl.len(),
{
    if zl.len() > 1 {
        assert(forall|i: int|
            0 <= i < zl.len() - 1 ==> (#[trigger] es.drop_last()[i]).2 == zl.drop_last()[i].1);
        lemma_min_bridge(zl.drop_last(), es.drop_last());
        crate::store::lemma_zmin_props(zl.drop_last());
        lemma_min_atime_props(es.drop_last());
        let j = crate::store::zmin_idx(zl.drop_last());
        assert(es[j].2 == zl[j].1);
        assert(es.last().2 == zl.last().1);
    }
}

/// An entry other than the removed one is still present afterwards.
proof fn lemma_has_entry_remove(es: Seq<(Seq<char>, u64, i64)>, i: int, m: Seq<char>)
    requires
        0 <= i < es.len(),
        has_entry(es, m),
        es[i].0 != m,
    ensures
        has_entry(es.remove(i), m),
{
    let j = choose|j: int| 0 <= j < es.len() && es[j].0 == m;
    if j < i {
        assert(es.remove(i)[j].0 == m);
    } else {
        assert(es.remove(i)[j - 1].0 == m);
    }
}

/// One eviction: the first least-recently-used entry leaves the index and
/// its blob is deleted.
pub open spec fn evict_step(m: LruModel, id: Seq<char>) -> LruModel {
    let i = min_atime_idx(m.entries);
    LruModel {
        entries: m.entries.remove(i),
        blobs: m.blobs.remove(tag_rest(id, m.entries[i].0)),
    }
}

/// Evictions run until `need` more bytes fit under `limit`, or nothing is
/// left to evict.
pub open spec fn evict_model(m: LruModel, id: Seq<char>, need: u64, limit: u64) -> LruModel
    decreases m.entries.len(),
    via evict_model_decreases
{
    if sum_sizes(m.entries) + need <= limit || m.entries.len() == 0 {
        m
    } else {
        evict_model(evict_step(m, id), id, need, limit)
    }
}

#[via_fn]
proof fn evict_model_decreases(m: LruModel, id: Seq<char>, need: u64, limit: u64) {
    if !(sum_sizes(m.entries) + need <= limit || m.entries.len() == 0) {
        lemma_min_atime_props(m.entries);
    }
}

/// The state after admitting `key` with `bytes` of accounted length `size`
/// at time `now`: evictions make room, the payload is written, and the entry
/// joins the index. An entry already present keeps its place with the new
/// size and time. An oversized payload changes nothing.
pub open spec fn put_model(
    m: LruModel,
    id: Seq<char>,
    key: Seq<char>,
    bytes: Seq<u8>,
    size: u64,
    now: i64,
    limit: u64,
) -> LruModel {
    if size > limit {
        m
    } else {
        let m1 = evict_model(m, id, size, limit);
        let rk = tagged(id, '_', key);
        let es = if has_entry(m1.entries, rk) {
            m1.entries.update(entry_idx(m1.entries, rk), (rk, size, now))
        } else {
            m1.entries.push((rk, size, now))
        };
        LruModel { entries: es, blobs: m1.blobs.insert(key, bytes) }
    }
}

/// The state after a hit on `key` at time `now`: the entry's access time
/// becomes `now`; a miss changes nothing.
pub open spec fn get_model(m: LruModel, id: Seq<char>, key: Seq<char>, now: i64) -> LruModel {
    let rk = tagged(id, '_', key);
    if has_entry(m.entries, rk) {
        let i = entry_idx(m.entries, rk);
        LruModel { entries: m.entries.update(i, (rk, m.entries[i].1, now)), blobs: m.blobs }
    } else {
        m
    }
}

/// The keys that instance `id` may touch in the metadata store.
pub open spec fn id_keys(id: Seq<char>) -> Set<Seq<char>> {
    Set::new(|k: Seq<char>| is_tagged(id, '_', k))
}

/// The store agrees with `s1` on every key outside instance `id`.
pub open spec fn untouched_outside(s1: MetaStore, s2: MetaStore, id: Seq<char>) -> bool {
    &&& s2.counters_view().remove_keys(id_keys(id)) == s1.counters_view().remove_keys(id_keys(id))
    &&& s2.hashes_view().remove_keys(id_keys(id)) == s1.hashes_view().remove_keys(id_keys(id))
    &&& s2.zsets_view().remove_keys(id_keys(id)) == s1.zsets_view().remove_keys(id_keys(id))
    &&& s2.strings_view() == s1.strings_view()
}

/// The bookkeeping keys of an instance belong to its key set.
proof fn lemma_id_keys(id: Seq<char>)
    ensures
        id_keys(id).contains(total_key(id)),
        id_keys(id).contains(index_key(id)),
        forall|k: Seq<char>| #[trigger] id_keys(id).contains(tagged(id, '_', k)),
{
    assert forall|k: Seq<char>| #[trigger] id_keys(id).contains(tagged(id, '_', k)) by {
        crate::strutil::lemma_tagged_roundtrip(id, '_', k);
    }
    crate::strutil::lemma_tagged_roundtrip(id, '_', "total_size"@);
    crate::strutil::lemma_tagged_roundtrip(id, '_', "cache_keys"@);
}

/// One pass of the eviction loop: popping the least-recently-used entry,
/// deleting its hash, blob and counted size, is exactly one `evict_step` of
/// the model and keeps the instance consistent.
proof fn lemma_evict_iteration(
    c_pre: LruRedisCache,
    c_post: LruRedisCache,
    s_pre: MetaStore,
    s_post: MetaStore,
    s0: MetaStore,
    id: Seq<char>,
    file_size: u64,
    limit: u64,
    mi: int,
    member: Seq<char>,
    psize: u64,
)
    requires
        c_pre.inv(s_pre),
        c_pre.spec_id() == id,
        c_post.spec_id() == id,
        c_pre.spec_limit() == limit,
        c_post.spec_limit() == limit,
        c_post.storage_wf(),
        file_size <= limit,
        zdistinct(s_pre.zlist_of(index_key(id))),
        c_pre.spec_entries(s_pre).len() > 0,
        sum_sizes(c_pre.spec_entries(s_pre)) + file_size > limit,
        mi == min_atime_idx(c_pre.spec_entries(s_pre)),
        0 <= mi < c_pre.spec_entries(s_pre).len(),
        member == c_pre.spec_entries(s_pre)[mi].0,
        psize == c_pre.spec_entries(s_pre)[mi].1,
        s_post.zsets_view() == s_pre.zsets_view().insert(
            index_key(id),
            s_pre.zlist_of(index_key(id)).remove(mi),
        ),
        s_post.hashes_view() == s_pre.hashes_view().remove(member),
        s_post.counters_view() == s_pre.counters_view().insert(
            total_key(id),
            (c_pre.spec_total(s_pre) - psize) as u64,
        ),
        s_post.strings_view() == s_pre.strings_view(),
        c_post.blobs() == c_pre.blobs().remove(tag_rest(id, member)),
        untouched_outside(s0, s_pre, id),
    ensures
        c_post.inv(s_post),
        c_post.spec_total(s_post) == c_pre.spec_total(s_pre) - psize,
        c_post.model(s_post) == evict_step(c_pre.model(s_pre), id),
        evict_model(c_post.model(s_post), id, file_size, limit) == evict_model(
            c_pre.model(s_pre),
            id,
            file_size,
            limit,
        ),
        untouched_outside(s0, s_post, id),
        c_post.spec_entries(s_post).len() == c_pre.spec_entries(s_pre).len() - 1,
{
    let es = c_pre.spec_entries(s_pre);
    let zl = s_pre.zlist_of(index_key(id));
    let es2 = c_post.spec_entries(s_post);
    let zl2 = s_post.zlist_of(index_key(id));
    assert(es.len() == zl.len());
    assert(zl2 == zl.remove(mi));
    lemma_tagged_reconstruct(id, '_', member);
    assert forall|i: int| 0 <= i < es2.len() implies es2[i] == es.remove(mi)[i] by {
        if i < mi {
            assert(zl.remove(mi)[i] == zl[i]);
            assert(zl[i].0 != member);
            assert(es.remove(mi)[i] == es[i]);
        } else {
            assert(zl.remove(mi)[i] == zl[i + 1]);
            assert(zl[i + 1].0 != member);
            assert(es.remove(mi)[i] == es[i + 1]);
        }
    }
    assert(es2 =~= es.remove(mi));
    lemma_sum_remove(es, mi);
    lemma_sum_nonneg(es.remove(mi));
    lemma_sum_elem(es, mi);
    assert(c_post.blobs() =~= c_pre.model(s_pre).blobs.remove(tag_rest(id, member)));
    assert(c_post.model(s_post) =~= evict_step(c_pre.model(s_pre), id));
    assert(evict_model(c_pre.model(s_pre), id, file_size, limit) == evict_model(
        evict_step(c_pre.model(s_pre), id),
        id,
        file_size,
        limit,
    ));
    lemma_id_keys(id);
    assert(s_post.counters_view().remove_keys(id_keys(id)) =~= s_pre.counters_view().remove_keys(
        id_keys(id),
    ));
    assert(s_post.hashes_view().remove_keys(id_keys(id)) =~= s_pre.hashes_view().remove_keys(
        id_keys(id),
    ));
    assert(s_post.zsets_view().remove_keys(id_keys(id)) =~= s_pre.zsets_view().remove_keys(
        id_keys(id),
    ));
    assert forall|i: int| 0 <= i < es2.len() implies c_post.blobs().dom().contains(
        tag_rest(id, (#[trigger] es2[i]).0),
    ) by {
        let w = if i < mi {
            i
        } else {
            i + 1
        };
        assert(es2[i] == es[w]);
        lemma_tagged_reconstruct(id, '_', es[w].0);
        assert(tag_rest(id, es[w].0) != tag_rest(id, member));
    }
    assert forall|bk: Seq<char>| #[trigger] c_post.blobs().dom().contains(bk) implies has_entry(
        es2,
        tagged(id, '_', bk),
    ) by {
        assert(c_pre.blobs().dom().contains(bk));
        assert(has_entry(es, tagged(id, '_', bk)));
        lemma_tagged_roundtrip(id, '_', bk);
        assert(tagged(id, '_', bk) != member);
        lemma_has_entry_remove(es, mi, tagged(id, '_', bk));
    }
    assert forall|h: Seq<char>|
        s_post.hashes_view().dom().contains(h) && is_tagged(id, '_', h) implies has_entry(
        es2,
        h,
    ) by {
        assert(s_pre.hashes_view().dom().contains(h));
        assert(has_entry(es, h));
        assert(h != member);
        lemma_has_entry_remove(es, mi, h);
    }
}

/// A hit on `key`: rewriting the entry's access time in its hash and in the
/// index is exactly `get_model` and keeps the instance consistent.
proof fn lemma_touch(
    c: LruRedisCache,
    s_pre: MetaStore,
    s_post: MetaStore,
    id: Seq<char>,
    key: Seq<char>,
    now: i64,
)
    requires
        c.inv(s_pre),
        c.spec_id() == id,
        zdistinct(s_pre.zlist_of(index_key(id))),
        has_entry(c.spec_entries(s_pre), tagged(id, '_', key)),
        s_post.hashes_view() == s_pre.hashes_view().insert(
            tagged(id, '_', key),
            FieldsSnap {
                path: s_pre.hashes_view()[tagged(id, '_', key)].path,
                size: s_pre.hashes_view()[tagged(id, '_', key)].size,
                atime: now,
            },
        ),
        s_post.zsets_view() == s_pre.zsets_view().insert(
            index_key(id),
            crate::store::zupsert(s_pre.zlist_of(index_key(id)), tagged(id, '_', key), now),
        ),
        s_post.counters_view() == s_pre.counters_view(),
        s_post.strings_view() == s_pre.strings_view(),
    ensures
        c.inv(s_post),
        c.model(s_post) == get_model(c.model(s_pre), id, key, now),
        untouched_outside(s_pre, s_post, id),
{
    let rk = tagged(id, '_', key);
    let es = c.spec_entries(s_pre);
    let zl = s_pre.zlist_of(index_key(id));
    let es2 = c.spec_entries(s_post);
    let zl2 = s_post.zlist_of(index_key(id));
    let j = choose|j: int| 0 <= j < es.len() && es[j].0 == rk;
    assert(zl[j].0 == rk);
    assert(exists|i: int| 0 <= i < zl.len() && zl[i].0 == rk);
    let w = choose|i: int| 0 <= i < zl.len() && zl[i].0 == rk;
    assert(w == j);
    assert(zl2 == zl.update(j, (rk, now)));
    assert(entry_idx(es, rk) == j);
    assert forall|i: int| 0 <= i < es2.len() implies es2[i] == es.update(
        j,
        (rk, es[j].1, now),
    )[i] by {
        if i != j {
            assert(zl2[i] == zl[i]);
            assert(zl[i].0 != rk);
        }
    }
    assert(es2 =~= es.update(j, (rk, es[j].1, now)));
    assert(c.model(s_post) =~= get_model(c.model(s_pre), id, key, now));
    lemma_sum_update(es, j, (rk, es[j].1, now));
    lemma_id_keys(id);
    assert(s_post.counters_view().remove_keys(id_keys(id)) =~= s_pre.counters_view().remove_keys(
        id_keys(id),
    ));
    assert(s_post.hashes_view().remove_keys(id_keys(id)) =~= s_pre.hashes_view().remove_keys(
        id_keys(id),
    ));
    assert(s_post.zsets_view().remove_keys(id_keys(id)) =~= s_pre.zsets_view().remove_keys(
        id_keys(id),
    ));
    assert forall|i: int|
        0 <= i < es2.len() implies is_tagged(id, '_', (#[trigger] es2[i]).0)
        && s_post.hashes_view().dom().contains(es2[i].0) && s_post.hashes_view()[es2[i].0].atime
        == es2[i].2 && s_post.hashes_view()[es2[i].0].path == es2[i].0 && c.blobs().dom().contains(
        tag_rest(id, es2[i].0),
    ) by {
        assert(es[i].0 == es2[i].0);
        if es2[i].0 == rk {
            assert(s_pre.hashes_view()[rk].path == rk);
        }
    }
    assert forall|bk: Seq<char>| #[trigger] c.blobs().dom().contains(bk) implies has_entry(
        es2,
        tagged(id, '_', bk),
    ) by {
        assert(has_entry(es, tagged(id, '_', bk)));
        let v = choose|v: int| 0 <= v < es.len() && es[v].0 == tagged(id, '_', bk);
        assert(es2[v].0 == tagged(id, '_', bk));
    }
    assert forall|h: Seq<char>|
        s_post.hashes_view().dom().contains(h) && is_tagged(id, '_', h) implies has_entry(
        es2,
        h,
    ) by {
        if h == rk {
            assert(es2[j].0 == rk);
        } else {
            assert(s_pre.hashes_view().dom().contains(h));
            assert(has_entry(es, h));
            let v = choose|v: int| 0 <= v < es.len() && es[v].0 == h;
            assert(es2[v].0 == h);
        }
    }
}

/// Entries with pairwise distinct keys.
pub open spec fn edistinct(es: Seq<(Seq<char>, u64, i64)>) -> bool {
    forall|i: int, j: int| 0 <= i < j < es.len() ==> es[i].0 != es[j].0
}

/// Whatever survives the eviction pass was already there.
pub proof fn lemma_evict_subset(m: LruModel, id: Seq<char>, need: u64, limit: u64, k: Seq<char>)
    requires
        has_entry(evict_model(m, id, need, limit).entries, k),
    ensures
        has_entry(m.entries, k),
    decreases m.entries.len(),
{
    if !(sum_sizes(m.entries) + need <= limit || m.entries.len() == 0) {
        lemma_min_atime_props(m.entries);
        let mi = min_atime_idx(m.entries);
        lemma_evict_subset(evict_step(m, id), id, need, limit, k);
        let j = choose|j: int|
            0 <= j < m.entries.remove(mi).len() && m.entries.remove(mi)[j].0 == k;
        if j < mi {
            assert(m.entries[j].0 == k);
        } else {
            assert(m.entries[j + 1].0 == k);
        }
    }
}

/// Eviction is ordered by recency: while any entry survives the pass, no
/// entry strictly newer than it is evicted.
pub proof fn lemma_evict_downward(
    m: LruModel,
    id: Seq<char>,
    need: u64,
    limit: u64,
    x: int,
    y: int,
)
    requires
        edistinct(m.entries),
        0 <= x < m.entries.len(),
        0 <= y < m.entries.len(),
        m.entries[x].2 < m.entries[y].2,
        has_entry(evict_model(m, id, need, limit).entries, m.entries[x].0),
    ensures
        has_entry(evict_model(m, id, need, limit).entries, m.entries[y].0),
    decreases m.entries.len(),
{
    if !(sum_sizes(m.entries) + need <= limit || m.entries.len() == 0) {
        lemma_min_atime_props(m.entries);
        let mi = min_atime_idx(m.entries);
        let m2 = evict_step(m, id);
        if mi == x {
            lemma_evict_subset(m2, id, need, limit, m.entries[x].0);
            let j = choose|j: int|
                0 <= j < m2.entries.len() && m2.entries[j].0 == m.entries[x].0;
            if j < mi {
                assert(m.entries[j].0 == m.entries[x].0);
                assert(false);
            } else {
                assert(m.entries[j + 1].0 == m.entries[x].0);
                assert(false);
            }
        } else {
            assert(m.entries[mi].2 <= m.entries[x].2);
            assert(mi != y);
            let x2 = if x < mi {
                x
            } else {
                x - 1
            };
            let y2 = if y < mi {
                y
            } else {
                y - 1
            };
            assert(m2.entries[x2] == m.entries[x]);
            assert(m2.entries[y2] == m.entries[y]);
            assert forall|i: int, j: int| 0 <= i < j < m2.entries.len() implies m2.entries[i].0
                != m2.entries[j].0 by {
                let i1 = if i < mi {
                    i
                } else {
                    i + 1
                };
                let j1 = if j < mi {
                    j
                } else {
                    j + 1
                };
                assert(m2.entries[i] == m.entries[i1]);
                assert(m2.entries[j] == m.entries[j1]);
            }
            lemma_evict_downward(m2, id, need, limit, x2, y2);
        }
    }
}

/// The most recently used entry survives any admission pass that leaves at
/// least one entry in place.
pub proof fn lemma_recency_preserved(m: LruModel, id: Seq<char>, need: u64, limit: u64, y: int)
    requires
        edistinct(m.entries),
        0 <= y < m.entries.len(),
        forall|i: int| 0 <= i < m.entries.len() && i != y ==> (#[trigger] m.entries[i]).2
            < m.entries[y].2,
        evict_model(m, id, need, limit).entries.len() > 0,
    ensures
        has_entry(evict_model(m, id, need, limit).entries, m.entries[y].0),
{
    let res = evict_model(m, id, need, limit).entries;
    let k0 = res[0].0;
    assert(has_entry(res, k0));
    lemma_evict_subset(m, id, need, limit, k0);
    let w = choose|w: int| 0 <= w < m.entries.len() && m.entries[w].0 == k0;
    if w == y {
    } else {
        lemma_evict_downward(m, id, need, limit, w, y);
    }
}

/// A hit at least one second after the previous access strictly increases
/// the entry's recorded access time.
pub proof fn lemma_atime_advances(m: LruModel, id: Seq<char>, key: Seq<char>, now: i64, j: int)
    requires
        edistinct(m.entries),
        0 <= j < m.entries.len(),
        m.entries[j].0 == tagged(id, '_', key),
        now >= m.entries[j].2 + 1,
    ensures
        get_model(m, id, key, now).entries[j].2 > m.entries[j].2,
        get_model(m, id, key, now).entries[j].0 == m.entries[j].0,
{
    let rk = tagged(id, '_', key);
    assert(has_entry(m.entries, rk));
    let w = entry_idx(m.entries, rk);
    assert(w == j);
}

/// Instances whose ids are not prefixes of one another cannot see each
/// other's state: an operation that only touches the keys of `a` leaves a
/// consistent instance `c` exactly as it was.
pub proof fn lemma_isolation(s1: MetaStore, s2: MetaStore, c: LruRedisCache, a: Seq<char>)
    requires
        untouched_outside(s1, s2, a),
        c.inv(s1),
        !a.is_prefix_of(c.spec_id()),
        !c.spec_id().is_prefix_of(a),
    ensures
        c.spec_entries(s2) == c.spec_entries(s1),
        c.spec_total(s2) == c.spec_total(s1),
        c.model(s2) == c.model(s1),
        c.inv(s2),
{
    let b = c.spec_id();
    assert forall|k: Seq<char>| is_tagged(b, '_', k) implies !id_keys(a).contains(k) by {
        crate::strutil::lemma_tag_disjoint(a, '_', b, '_', k);
    }
    crate::strutil::lemma_tagged_roundtrip(b, '_', "cache_keys"@);
    crate::strutil::lemma_tagged_roundtrip(b, '_', "total_size"@);
    let zk = index_key(b);
    let tk = total_key(b);
    assert(s2.zsets_view().remove_keys(id_keys(a)).dom().contains(zk) == s1.zsets_view()
        .remove_keys(id_keys(a))
        .dom()
        .contains(zk));
    assert(s2.zsets_view().dom().contains(zk) == s1.zsets_view().dom().contains(zk));
    if s1.zsets_view().dom().contains(zk) {
        assert(s2.zsets_view().remove_keys(id_keys(a))[zk] == s1.zsets_view().remove_keys(
            id_keys(a),
        )[zk]);
    }
    assert(s2.zlist_of(zk) == s1.zlist_of(zk));
    assert(s2.counters_view().remove_keys(id_keys(a)).dom().contains(tk) == s1.counters_view()
        .remove_keys(id_keys(a))
        .dom()
        .contains(tk));
    assert(s2.counters_view().dom().contains(tk) == s1.counters_view().dom().contains(tk));
    if s1.counters_view().dom().contains(tk) {
        assert(s2.counters_view().remove_keys(id_keys(a))[tk] == s1.counters_view().remove_keys(
            id_keys(a),
        )[tk]);
    }
    assert(c.spec_total(s2) == c.spec_total(s1));
    let es1 = c.spec_entries(s1);
    let zl = s1.zlist_of(zk);
    assert forall|h: Seq<char>| is_tagged(b, '_', h) implies s2.hashes_view().dom().contains(h)
        == s1.hashes_view().dom().contains(h) && (s1.hashes_view().dom().contains(h)
        ==> s2.hashes_view()[h] == s1.hashes_view()[h]) by {
        assert(s2.hashes_view().remove_keys(id_keys(a)).dom().contains(h) == s1.hashes_view()
            .remove_keys(id_keys(a))
            .dom()
            .contains(h));
        if s1.hashes_view().dom().contains(h) {
            assert(s2.hashes_view().remove_keys(id_keys(a))[h] == s1.hashes_view().remove_keys(
                id_keys(a),
            )[h]);
        }
    }
    assert(c.spec_entries(s2).len() == es1.len());
    assert forall|i: int| 0 <= i < c.spec_entries(s2).len() implies c.spec_entries(s2)[i]
        == es1[i] by {
        assert(es1[i].0 == zl[i].0);
        assert(is_tagged(b, '_', es1[i].0));
    }
    assert(c.spec_entries(s2) =~= es1);
    assert(c.model(s2) =~= c.model(s1));
}

/// Admission adds no key but its own: any other key present afterwards was
/// present before.
pub proof fn lemma_put_no_new_entries(
    m: LruModel,
    id: Seq<char>,
    key: Seq<char>,
    bytes: Seq<u8>,
    size: u64,
    now: i64,
    limit: u64,
    w: Seq<char>,
)
    requires
        has_entry(put_model(m, id, key, bytes, size, now, limit).entries, w),
        w != tagged(id, '_', key),
    ensures
        has_entry(m.entries, w),
{
    if size <= limit {
        let m1 = evict_model(m, id, size, limit);
        let rk = tagged(id, '_', key);
        let es = put_model(m, id, key, bytes, size, now, limit).entries;
        let j = choose|j: int| 0 <= j < es.len() && es[j].0 == w;
        if has_entry(m1.entries, rk) {
            let u = entry_idx(m1.entries, rk);
            assert(m1.entries[j].0 == w);
        } else {
            if j < m1.entries.len() {
                assert(m1.entries[j].0 == w);
            } else {
                assert(es[j].0 == rk);
                assert(false);
            }
        }
        lemma_evict_subset(m, id, size, limit, w);
    }
}

/// A size-bounded cache instance.
pub struct LruRedisCache {
    storage: BlobStore,
    pub size_limit: u64,
    id: String,
}

impl LruRedisCache {
    pub closed spec fn spec_id(&self) -> Seq<char> {
        self.id@
    }

    pub closed spec fn spec_limit(&self) -> u64 {
        self.size_limit
    }

    pub closed spec fn blobs(&self) -> Map<Seq<char>, Seq<u8>> {
        self.storage@
    }

    pub closed spec fn storage_wf(&self) -> bool {
        self.storage.wf()
    }

    /// The index of instance `id` in `s`, with each member's size read from
    /// its metadata hash.
    pub open spec fn spec_entries(&self, s: MetaStore) -> Seq<(Seq<char>, u64, i64)> {
        s.zlist_of(index_key(self.spec_id())).map_values(
            |p: (Seq<char>, i64)| (p.0, s.hashes_view()[p.0].size, p.1),
        )
    }

    /// The recorded total size of instance `id`.
    pub open spec fn spec_total(&self, s: MetaStore) -> u64 {
        s.cval(total_key(self.spec_id()))
    }

    /// The abstract state of this instance against the store `s`.
    pub open spec fn model(&self, s: MetaStore) -> LruModel {
        LruModel { entries: self.spec_entries(s), blobs: self.blobs() }
    }

    /// The consistency of this instance's metadata and payloads: every
    /// indexed entry has a hash whose access time is the index score and a
    /// stored payload; every hash of this instance and every payload belongs
    /// to an indexed entry; the counter is the sum of the entry sizes and
    /// stays within the limit.
    pub open spec fn inv(&self, s: MetaStore) -> bool {
        let id = self.spec_id();
        let es = self.spec_entries(s);
        &&& self.storage_wf()
        &&& forall|i: int| 0 <= i < es.len() ==> is_tagged(id, '_', (#[trigger] es[i]).0)
        &&& forall|i: int|
            0 <= i < es.len() ==> s.hashes_view().dom().contains((#[trigger] es[i]).0)
        &&& forall|i: int|
            0 <= i < es.len() ==> s.hashes_view()[(#[trigger] es[i]).0].atime == es[i].2
        &&& forall|i: int|
            0 <= i < es.len() ==> s.hashes_view()[(#[trigger] es[i]).0].path == es[i].0
        &&& forall|i: int|
            0 <= i < es.len() ==> self.blobs().dom().contains(tag_rest(id, (#[trigger] es[i]).0))
        &&& forall|bk: Seq<char>| #[trigger]
            self.blobs().dom().contains(bk) ==> has_entry(es, tagged(id, '_', bk))
        &&& forall|h: Seq<char>|
            #![trigger s.hashes_view().dom().contains(h)]
            s.hashes_view().dom().contains(h) && is_tagged(id, '_', h) ==> has_entry(es, h)
        &&& self.spec_total(s) as int == sum_sizes(es)
        &&& self.spec_total(s) <= self.spec_limit()
    }

    /// A store is fresh for this instance when it holds nothing of it yet.
    pub open spec fn fresh_for(&self, s: MetaStore) -> bool {
        let id = self.spec_id();
        &&& s.zlist_of(index_key(id)).len() == 0
        &&& s.cval(total_key(id)) == 0
        &&& forall|h: Seq<char>|
            #![trigger s.hashes_view().dom().contains(h)]
            s.hashes_view().dom().contains(h) ==> !is_tagged(id, '_', h)
    }

    /// A new instance rooted at `root_dir`, holding at most `size_limit`
    /// bytes, with all its metadata under the prefix `id`.
    pub fn new(root_dir: &str, size_limit: u64, id: &str) -> (r: Self)
        ensures
            r.spec_id() == id@,
            r.spec_limit() == size_limit,
            r.blobs() == Map::<Seq<char>, Seq<u8>>::empty(),
            r.storage_wf(),
            forall|s: MetaStore| r.fresh_for(s) ==> r.inv(s),
    {
        let r = LruRedisCache {
            storage: BlobStore::new(root_dir),
            size_limit: size_limit,
            id: id.to_owned(),
        };
        proof {
            assert forall|s: MetaStore| r.fresh_for(s) implies r.inv(s) by {
                assert(r.spec_entries(s) =~= Seq::<(Seq<char>, u64, i64)>::empty());
            }
        }
        r
    }

    /// The cache key that the prefixed key `cache_key` stands for.
    pub fn from_prefixed_key(&self, cache_key: &str) -> (r: String)
        requires
            self.spec_id().len() + 1 <= cache_key@.len(),
        ensures
            r@ == tag_rest(self.spec_id(), cache_key@),
    {
        strip_tag(self.id.as_str(), cache_key)
    }

    /// The store key of `cache_key` under this instance.
    pub fn to_prefixed_key(&self, cache_key: &str) -> (r: String)
        ensures
            r@ == tagged(self.spec_id(), '_', cache_key@),
    {
        proof {
            reveal_strlit("_");
        }
        tag_key(self.id.as_str(), "_", cache_key)
    }

    /// The key of this instance's total-size counter.
    fn total_size_key(&self) -> (r: String)
        ensures
            r@ == total_key(self.spec_id()),
    {
        self.to_prefixed_key("total_size")
    }

    /// The key of the index that holds this instance's entries.
    fn entries_zlist_key(&self) -> (r: String)
        ensures
            r@ == index_key(self.spec_id()),
    {
        self.to_prefixed_key("cache_keys")
    }

    /// Admits `entry` under `key`. A stream of unknown length and a payload
    /// larger than the size limit are skipped with no side effect. Otherwise
    /// least-recently-used entries are evicted until the new total fits, the
    /// payload is written, and the entry joins the index with access time
    /// `now`; re-admitting a key replaces its size and access time.
    #[verifier::rlimit(100)]
    pub fn put(&mut self, store: &mut MetaStore, now: i64, key: &str, entry: CacheData)
        requires
            old(store).wf(),
            old(self).inv(*old(store)),
        ensures
            final(store).wf(),
            final(self).inv(*final(store)),
            final(self).spec_id() == old(self).spec_id(),
            final(self).spec_limit() == old(self).spec_limit(),
            untouched_outside(*old(store), *final(store), old(self).spec_id()),
            match spec_data_len(entry) {
                None => *final(store) == *old(store) && *final(self) == *old(self),
                Some(sz) => if sz > old(self).spec_limit() {
                    *final(store) == *old(store) && *final(self) == *old(self)
                } else {
                    final(self).model(*final(store)) == put_model(
                        old(self).model(*old(store)),
                        old(self).spec_id(),
                        key@,
                        spec_data_bytes(entry),
                        sz as u64,
                        now,
                        old(self).spec_limit(),
                    )
                },
            },
            final(self).spec_total(*final(store)) <= old(self).spec_limit(),
            final(self).spec_total(*final(store)) as int == sum_sizes(
                final(self).spec_entries(*final(store)),
            ),
    {
        let ghost id = old(self).spec_id();
        let ghost limit = old(self).spec_limit();
        let ghost m0 = old(self).model(*old(store));
        let file_size: u64;
        match entry.known_len() {
            Some(n) => {
                file_size = n;
            },
            None => {
                // a stream of unknown length cannot be admitted
                return ;
            },
        }
        if file_size > self.size_limit {
            // an oversized payload is skipped and disturbs nothing
            return ;
        }
        let tk = self.total_size_key();
        let zk = self.entries_zlist_key();
        let rk = self.to_prefixed_key(key);
        let mut cur: u64 = store.counter_get(&tk);
        let headroom: u64 = self.size_limit - file_size;
        while cur > headroom
            invariant
                store.wf(),
                self.inv(*store),
                self.spec_id() == id,
                self.spec_limit() == limit,
                self.size_limit == limit,
                file_size <= limit,
                headroom == limit - file_size,
                cur == self.spec_total(*store),
                tk@ == total_key(id),
                zk@ == index_key(id),
                rk@ == tagged(id, '_', key@),
                evict_model(self.model(*store), id, file_size, limit) == evict_model(
                    m0,
                    id,
                    file_size,
                    limit,
                ),
                untouched_outside(*old(store), *store, id),
            decreases self.spec_entries(*store).len(),
        {
            let ghost c_pre = *self;
            let ghost s_pre = *store;
            let ghost es_pre = self.spec_entries(*store);
            let ghost zl_pre = store.zlist_of(index_key(id));
            proof {
                assert(es_pre.len() == zl_pre.len());
                if es_pre.len() == 0 {
                    assert(false);
                }
                lemma_min_atime_props(es_pre);
                assert(forall|i: int|
                    0 <= i < zl_pre.len() ==> (#[trigger] es_pre[i]).2 == zl_pre[i].1);
                lemma_min_bridge(zl_pre, es_pre);
                crate::store::lemma_zmin_props(zl_pre);
                s_pre.lemma_wf_zdistinct(index_key(id));
            }
            let ghost mi = min_atime_idx(es_pre);
            match store.zpopmin(&zk) {
                Some(popped) => {
                    let member: String = popped.0;
                    proof {
                        assert(member@ == zl_pre[mi].0);
                        assert(es_pre[mi].0 == member@);
                        assert(is_tagged(id, '_', member@));
                    }
                    let file = self.from_prefixed_key(member.as_str());
                    self.storage.remove(&file);
                    let psize: u64 = match store.hash_get(&member) {
                        Some(f) => f.size,
                        None => 0,
                    };
                    proof {
                        assert(psize == es_pre[mi].1);
                        lemma_sum_elem(es_pre, mi);
                    }
                    store.hash_remove(&member);
                    cur = store.counter_decr(&tk, psize);
                    proof {
                        lemma_evict_iteration(
                            c_pre,
                            *self,
                            s_pre,
                            *store,
                            *old(store),
                            id,
                            file_size,
                            limit,
                            mi,
                            member@,
                            psize,
                        );
                    }
                },
                None => {
                    // the index cannot be empty while the counter is positive:
                    // the invariant rules the inconsistency out
                    proof {
                        assert(false);
                    }
                    return ;
                },
            }
        }
        proof {
            assert(evict_model(self.model(*store), id, file_size, limit) == self.model(*store));
        }
        let ghost s_exit = *store;
        let ghost es_exit = self.spec_entries(*store);
        let ghost zl_exit = store.zlist_of(index_key(id));
        let ghost m1 = evict_model(m0, id, file_size, limit);
        proof {
            assert(m1 == self.model(*store));
            store.lemma_wf_zdistinct(index_key(id));
            assert(zdistinct(zl_exit));
        }
        // an entry being rewritten gives its old size back before the new
        // size is counted
        let prev_size: Option<u64> = match store.hash_get(&rk) {
            Some(f) => Some(f.size),
            None => None,
        };
        proof {
            match prev_size {
                Some(ps) => {
                    assert(store.hashes_view().dom().contains(rk@));
                    lemma_tagged_roundtrip(id, '_', key@);
                    assert(has_entry(es_exit, rk@));
                    let j = choose|j: int| 0 <= j < es_exit.len() && es_exit[j].0 == rk@;
                    assert(es_exit[j].1 == ps);
                    lemma_sum_elem(es_exit, j);
                },
                None => {
                    if has_entry(es_exit, rk@) {
                        let j = choose|j: int| 0 <= j < es_exit.len() && es_exit[j].0 == rk@;
                        assert(store.hashes_view().dom().contains(es_exit[j].0));
                        assert(false);
                    }
                },
            }
        }
        if let Some(ps) = prev_size {
            cur = store.counter_decr(&tk, ps);
        }
        let filename = String::from_str(key);
        self.storage.persist(&filename, entry.to_vec());
        let meta = CacheEntry::new(rk.as_str(), file_size, now);
        store.hash_insert(
            &rk,
            EntryFields { path: meta.key, size: meta.metadata.size, atime: meta.metadata.atime },
        );
        store.zadd(&zk, &rk, now);
        store.counter_incr(&tk, file_size);
        proof {
            lemma_tagged_roundtrip(id, '_', key@);
            let es_fin = self.spec_entries(*store);
            let zl_fin = store.zlist_of(index_key(id));
            assert(zl_fin == crate::store::zupsert(zl_exit, rk@, now));
            if has_entry(es_exit, rk@) {
                let j = choose|j: int| 0 <= j < es_exit.len() && es_exit[j].0 == rk@;
                assert(zl_exit[j].0 == rk@);
                assert(exists|i: int| 0 <= i < zl_exit.len() && zl_exit[i].0 == rk@);
                let w = choose|i: int| 0 <= i < zl_exit.len() && zl_exit[i].0 == rk@;
                assert(w == j);
                assert(zl_fin == zl_exit.update(j, (rk@, now)));
                assert forall|i: int| 0 <= i < es_fin.len() implies es_fin[i] == es_exit.update(
                    j,
                    (rk@, file_size, now),
                )[i] by {
                    if i != j {
                        assert(zl_fin[i] == zl_exit[i]);
                        assert(zl_exit[i].0 != rk@);
                    }
                }
                assert(es_fin =~= es_exit.update(j, (rk@, file_size, now)));
                assert(entry_idx(es_exit, rk@) == j);
                lemma_sum_update(es_exit, j, (rk@, file_size, now));
            } else {
                assert forall|i: int| 0 <= i < zl_exit.len() implies (#[trigger] zl_exit[i]).0
                    != rk@ by {
                    assert(es_exit[i].0 == zl_exit[i].0);
                }
                assert(zl_fin == zl_exit.push((rk@, now)));
                assert forall|i: int| 0 <= i < es_fin.len() implies es_fin[i] == es_exit.push(
                    (rk@, file_size, now),
                )[i] by {
                    if i < es_exit.len() {
                        assert(zl_fin[i] == zl_exit[i]);
                        assert(zl_exit[i].0 != rk@);
                    }
                }
                assert(es_fin =~= es_exit.push((rk@, file_size, now)));
                assert(es_fin.drop_last() =~= es_exit);
            }
            assert(self.blobs() == m1.blobs.insert(key@, spec_data_bytes(entry)));
            assert(self.model(*store) =~= put_model(
                m0,
                id,
                key@,
                spec_data_bytes(entry),
                file_size,
                now,
                limit,
            ));
            // keys outside the instance stay as they were
            lemma_id_keys(id);
            assert(store.counters_view().remove_keys(id_keys(id)) =~= s_exit.counters_view()
                .remove_keys(id_keys(id)));
            assert(store.hashes_view().remove_keys(id_keys(id)) =~= s_exit.hashes_view()
                .remove_keys(id_keys(id)));
            assert(store.zsets_view().remove_keys(id_keys(id)) =~= s_exit.zsets_view().remove_keys(
                id_keys(id),
            ));
            // consistency of the grown instance
            let es_w = es_fin;
            assert forall|i: int| 0 <= i < es_w.len() implies is_tagged(
                id,
                '_',
                (#[trigger] es_w[i]).0,
            ) && store.hashes_view().dom().contains(es_w[i].0) && store.hashes_view()[es_w[i].0].atime
                == es_w[i].2 && store.hashes_view()[es_w[i].0].path == es_w[i].0 && self.blobs()
                .dom()
                .contains(tag_rest(id, es_w[i].0)) by {
                if es_w[i].0 == rk@ {
                } else {
                    assert(i < es_exit.len() && es_exit[i] == es_w[i]);
                }
            }
            assert forall|bk: Seq<char>| #[trigger] self.blobs().dom().contains(bk) implies
                has_entry(es_w, tagged(id, '_', bk)) by {
                if bk == key@ {
                    if has_entry(es_exit, rk@) {
                        let j = entry_idx(es_exit, rk@);
                        assert(es_w[j].0 == rk@);
                    } else {
                        assert(es_w[es_w.len() - 1].0 == rk@);
                    }
                } else {
                    assert(m1.blobs.dom().contains(bk));
                    assert(has_entry(es_exit, tagged(id, '_', bk)));
                    let j = choose|j: int|
                        0 <= j < es_exit.len() && es_exit[j].0 == tagged(id, '_', bk);
                    assert(es_w[j].0 == es_exit[j].0 || es_w[j].0 == rk@);
                    if es_w[j].0 != es_exit[j].0 {
                        assert(es_exit[j].0 == rk@);
                    }
                    assert(es_w[j].0 == tagged(id, '_', bk) || rk@ == tagged(id, '_', bk));
                }
            }
            assert forall|h: Seq<char>|
                store.hashes_view().dom().contains(h) && is_tagged(id, '_', h) implies has_entry(
                es_w,
                h,
            ) by {
                if h == rk@ {
                    if has_entry(es_exit, rk@) {
                        let j = entry_idx(es_exit, rk@);
                        assert(es_w[j].0 == rk@);
                    } else {
                        assert(es_w[es_w.len() - 1].0 == rk@);
                    }
                } else {
                    assert(s_exit.hashes_view().dom().contains(h));
                    assert(has_entry(es_exit, h));
                    let j = choose|j: int| 0 <= j < es_exit.len() && es_exit[j].0 == h;
                    if has_entry(es_exit, rk@) {
                        if j != entry_idx(es_exit, rk@) {
                            assert(es_w[j].0 == h);
                        } else {
                            assert(false);
                        }
                    } else {
                        assert(es_w[j].0 == h);
                    }
                }
            }
        }
    }

    /// Looks `key` up. On a hit the entry's access time and its index score
    /// become `now` and the stored payload is returned; a miss returns
    /// nothing and changes nothing.
    #[verifier::rlimit(100)]
    pub fn get(&mut self, store: &mut MetaStore, now: i64, key: &str) -> (r: Option<CacheData>)
        requires
            old(store).wf(),
            old(self).inv(*old(store)),
        ensures
            final(store).wf(),
            final(self).inv(*final(store)),
            final(self).spec_id() == old(self).spec_id(),
            final(self).spec_limit() == old(self).spec_limit(),
            untouched_outside(*old(store), *final(store), old(self).spec_id()),
            final(self).model(*final(store)) == get_model(
                old(self).model(*old(store)),
                old(self).spec_id(),
                key@,
                now,
            ),
            *final(self) == *old(self),
            match r {
                Some(d) => has_entry(
                    old(self).spec_entries(*old(store)),
                    tagged(old(self).spec_id(), '_', key@),
                ) && spec_data_bytes(d) == old(self).blobs()[key@],
                None => !has_entry(
                    old(self).spec_entries(*old(store)),
                    tagged(old(self).spec_id(), '_', key@),
                ),
            },
    {
        let ghost id = old(self).spec_id();
        let ghost es0 = old(self).spec_entries(*old(store));
        let zk = self.entries_zlist_key();
        let rk = self.to_prefixed_key(key);
        let filename = String::from_str(key);
        let touched: Option<EntryFields> = match store.hash_get(&rk) {
            Some(f) => Some(EntryFields { path: f.path.clone(), size: f.size, atime: now }),
            None => None,
        };
        match touched {
            Some(f) => {
                proof {
                    lemma_tagged_roundtrip(id, '_', key@);
                    assert(has_entry(es0, rk@));
                    old(store).lemma_wf_zdistinct(index_key(id));
                }
                store.hash_insert(&rk, f);
                store.zadd(&zk, &rk, now);
                proof {
                    lemma_touch(*self, *old(store), *store, id, key@, now);
                }
                match self.storage.read(&filename) {
                    Some(v) => Some(CacheData::from_vec(v)),
                    None => {
                        // the invariant keeps a payload for every indexed
                        // entry, so a hit always finds its blob
                        proof {
                            let j = choose|j: int| 0 <= j < es0.len() && es0[j].0 == rk@;
                            assert(old(self).blobs().dom().contains(tag_rest(id, es0[j].0)));
                            lemma_tagged_roundtrip(id, '_', key@);
                            assert(false);
                        }
                        None
                    },
                }
            },
            None => {
                proof {
                    if has_entry(es0, rk@) {
                        let j = choose|j: int| 0 <= j < es0.len() && es0[j].0 == rk@;
                        assert(old(store).hashes_view().dom().contains(es0[j].0));
                        assert(false);
                    }
                }
                None
            },
        }
    }

    /// The stored payload of `key`, read without touching access metadata.
    pub fn read_blob(&self, key: &str) -> (r: Option<Vec<u8>>)
        requires
            self.storage_wf(),
        ensures
            match r {
                Some(v) => self.blobs().dom().contains(key@) && v@ == self.blobs()[key@],
                None => !self.blobs().dom().contains(key@),
            },
    {
        self.storage.read(&String::from_str(key))
    }

    /// The recorded total size of this instance.
    pub fn get_total_size(&self, store: &MetaStore) -> (r: u64)
        requires
            store.wf(),
        ensures
            r == self.spec_total(*store),
    {
        store.counter_get(&self.total_size_key())
    }
}

} // verus!
