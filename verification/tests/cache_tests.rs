use bytes::Bytes;
use mirror_cache::data::CacheData;
use mirror_cache::lru::LruRedisCache;
use mirror_cache::store::MetaStore;
use mirror_cache::ttl::TtlRedisCache;

static TEST_CACHE_DIR: &str = "cache";

#[test]
fn lru_prefix_key() {
    let lru_cache = LruRedisCache::new(TEST_CACHE_DIR, 1024, "prefix_key_test");
    assert_eq!(lru_cache.to_prefixed_key("April"), "prefix_key_test_April");
}

#[test]
fn test_cache_entry_set_success() {
    let mut store = MetaStore::new();
    let mut lru_cache = LruRedisCache::new(TEST_CACHE_DIR, 16 * 1024 * 1024, "test_cache_entry_success");
    let key = "answer";
    let cached_data = vec![42];
    let len = cached_data.len();
    lru_cache.put(&mut store, 100, key, CacheData::from_vec(cached_data.clone()));
    let total_size_expected = len as u64;
    let total_size_actual: u64 = lru_cache.get_total_size(&store);
    let cached_data_actual = lru_cache.read_blob(key).unwrap();
    assert_eq!(total_size_actual, total_size_expected);
    assert_eq!(&cached_data_actual, &cached_data);
}

#[test]
fn lru_cache_size_constraint() {
    let mut store = MetaStore::new();
    let mut lru_cache = LruRedisCache::new(TEST_CACHE_DIR, 16, "lru_cache_size_constraint");
    lru_cache.put(&mut store, 100, "tsu_ki", CacheData::from_vec(vec![0; 5]));
    let total_size_actual: u64 = lru_cache.get_total_size(&store);
    assert_eq!(total_size_actual, 5);
    lru_cache.put(&mut store, 101, "kirei", CacheData::from_vec(vec![0; 11]));
    let total_size_actual: u64 = lru_cache.get_total_size(&store);
    assert_eq!(total_size_actual, 16);
    assert_eq!(lru_cache.read_blob("tsu_ki").unwrap(), vec![0; 5]);
    assert_eq!(lru_cache.read_blob("kirei").unwrap(), vec![0; 11]);
    // cache is full, evict tsu_ki
    lru_cache.put(&mut store, 102, "suki", CacheData::from_vec(vec![1; 4]));
    assert_eq!(lru_cache.get_total_size(&store), 15);
    assert_eq!(lru_cache.read_blob("tsu_ki").is_none(), true);
    // evict both
    lru_cache.put(&mut store, 103, "deadbeef", CacheData::from_vec(vec![2; 16]));
    assert_eq!(lru_cache.get_total_size(&store), 16);
    assert_eq!(lru_cache.read_blob("kirei").is_none(), true);
    assert_eq!(lru_cache.read_blob("suki").is_none(), true);
    assert_eq!(lru_cache.read_blob("deadbeef").unwrap(), vec![2; 16]);
}

#[test]
fn test_lru_cache_no_evict_recent() {
    let mut store = MetaStore::new();
    let mut lru_cache = LruRedisCache::new(TEST_CACHE_DIR, 3, "lru_no_evict_recent");
    let key1 = "1二号去听经";
    let key2 = "2晚上住旅店";
    let key3 = "3三号去餐厅";
    let key4 = "4然后看电影";
    lru_cache.put(&mut store, 100, key1, CacheData::from_vec(vec![1]));
    lru_cache.put(&mut store, 101, key2, CacheData::from_vec(vec![2]));
    lru_cache.put(&mut store, 102, key3, CacheData::from_vec(vec![3]));
    assert_eq!(lru_cache.get_total_size(&store), 3);
    // set key4, evict key1
    lru_cache.put(&mut store, 103, key4, CacheData::from_vec(vec![4]));
    assert!(lru_cache.get(&mut store, 104, key1).is_none());
    assert_eq!(lru_cache.get_total_size(&store), 3);
    // get key2, update atime
    assert_eq!(lru_cache.get(&mut store, 105, key2).unwrap().to_vec(), vec![2]);
    assert_eq!(lru_cache.get_total_size(&store), 3);
    // set key1, evict key3
    lru_cache.put(&mut store, 106, key1, CacheData::from_vec(vec![11]));
    assert_eq!(lru_cache.get_total_size(&store), 3);
    assert!(lru_cache.get(&mut store, 107, key3).is_none());
    assert_eq!(lru_cache.get_total_size(&store), 3);
}

#[test]
fn test_atime_updated_upon_access() {
    let mut store = MetaStore::new();
    let mut lru_cache = LruRedisCache::new(TEST_CACHE_DIR, 3, "atime_updated_upon_access");
    let key = "Shire";
    lru_cache.put(&mut store, 100, key, CacheData::from_vec(vec![0]));
    let atime_before: i64 = store.hash_get(&lru_cache.to_prefixed_key(key)).unwrap().atime;
    lru_cache.get(&mut store, 101, key);
    let atime_after: i64 = store.hash_get(&lru_cache.to_prefixed_key(key)).unwrap().atime;
    assert_eq!(atime_before < atime_after, true);
}

#[test]
fn key_update_total_size() {
    let mut store = MetaStore::new();
    let mut lru_cache = LruRedisCache::new(TEST_CACHE_DIR, 3, "key_update_no_change_total_size");
    let key = "Phantom";
    lru_cache.put(&mut store, 100, key, CacheData::from_vec(vec![0]));
    assert_eq!(lru_cache.get_total_size(&store), 1);
    lru_cache.put(&mut store, 101, key, CacheData::from_vec(vec![0, 1]));
    assert_eq!(lru_cache.get_total_size(&store), 2);
}

#[test]
fn lru_cache_isolation() {
    let mut store = MetaStore::new();
    let mut lru_cache_1 = LruRedisCache::new(&format!("{}/{}", TEST_CACHE_DIR, "1"), 3, "cache_isolation_1");
    let mut lru_cache_2 = LruRedisCache::new(&format!("{}/{}", TEST_CACHE_DIR, "2"), 3, "cache_isolation_2");
    lru_cache_1.put(&mut store, 100, "1", CacheData::from_vec(vec![1]));
    lru_cache_2.put(&mut store, 100, "2", CacheData::from_vec(vec![2]));
    assert_eq!(lru_cache_1.get_total_size(&store), 1);
    assert_eq!(lru_cache_2.get_total_size(&store), 1);
    assert_eq!(
        lru_cache_1.get(&mut store, 101, "1").unwrap().to_vec(),
        vec![1 as u8]
    );
    assert!(lru_cache_1.get(&mut store, 101, "2").is_none());
    assert!(lru_cache_2.get(&mut store, 101, "1").is_none());
    assert_eq!(lru_cache_2.get(&mut store, 101, "2").unwrap().to_vec(), vec![2]);
}

#[test]
fn cache_stream_size_valid() {
    let mut store = MetaStore::new();
    let mut lru_cache = LruRedisCache::new(TEST_CACHE_DIR, 3, "stream_cache");
    let bytes: Bytes = Bytes::from(vec![1, 1, 4]);
    let stream = CacheData::ByteStream(vec![bytes.clone()], Some(3));
    lru_cache.put(&mut store, 100, "na tsu", stream);
    let size = lru_cache.get_total_size(&store);
    assert_eq!(size, 3);
}

#[test]
fn lru_oversized_payload_is_skipped() {
    let mut store = MetaStore::new();
    let mut lru_cache = LruRedisCache::new(TEST_CACHE_DIR, 3, "oversize_skip");
    lru_cache.put(&mut store, 100, "small", CacheData::from_vec(vec![7]));
    assert_eq!(lru_cache.get_total_size(&store), 1);
    // a payload above the limit is skipped with no side effect
    lru_cache.put(&mut store, 101, "big", CacheData::from_vec(vec![0; 4]));
    assert_eq!(lru_cache.get_total_size(&store), 1);
    assert!(lru_cache.read_blob("big").is_none());
    assert_eq!(lru_cache.read_blob("small").unwrap(), vec![7]);
}

#[test]
fn lru_unknown_length_stream_is_skipped() {
    let mut store = MetaStore::new();
    let mut lru_cache = LruRedisCache::new(TEST_CACHE_DIR, 16, "nolen_skip");
    let stream = CacheData::ByteStream(vec![Bytes::from(vec![1, 2, 3])], None);
    lru_cache.put(&mut store, 100, "mystery", stream);
    assert_eq!(lru_cache.get_total_size(&store), 0);
    assert!(lru_cache.read_blob("mystery").is_none());
}

#[test]
fn lru_text_payload_roundtrip() {
    let mut store = MetaStore::new();
    let mut lru_cache = LruRedisCache::new(TEST_CACHE_DIR, 64, "text_roundtrip");
    lru_cache.put(
        &mut store,
        100,
        "page",
        CacheData::from(String::from("hello index")),
    );
    assert_eq!(lru_cache.get_total_size(&store), 11);
    assert_eq!(
        lru_cache.get(&mut store, 101, "page").unwrap().to_vec(),
        "hello index".as_bytes().to_vec()
    );
}

#[test]
fn ttl_prefix_key_roundtrip() {
    assert_eq!(TtlRedisCache::to_redis_key("inst", "pkg/a"), "inst/pkg/a");
    assert_eq!(TtlRedisCache::from_redis_key("inst", "inst/pkg/a"), "pkg/a");
}

#[test]
fn ttl_hit_before_expiry_miss_after() {
    let mut store = MetaStore::new();
    let mut ttl_cache = TtlRedisCache::new(TEST_CACHE_DIR, 10, "ttl_hit_miss");
    ttl_cache.put(&mut store, 100, "k", CacheData::from_vec(vec![9]));
    assert_eq!(ttl_cache.get(&mut store, 105, "k").unwrap().to_vec(), vec![9]);
    // at 110 the marker written at 100 with ttl 10 has expired
    assert!(ttl_cache.get(&mut store, 110, "k").is_none());
}

#[test]
fn ttl_reap_removes_expired_blob() {
    let mut store = MetaStore::new();
    let mut ttl_cache = TtlRedisCache::new(TEST_CACHE_DIR, 5, "ttl_reap");
    ttl_cache.put(&mut store, 100, "old", CacheData::from_vec(vec![1]));
    ttl_cache.put(&mut store, 103, "fresh", CacheData::from_vec(vec![2]));
    // at 106: "old" expired at 105, "fresh" expires at 108
    ttl_cache.reap(&mut store, 106);
    assert!(ttl_cache.read_blob("old").is_none());
    assert_eq!(ttl_cache.read_blob("fresh").unwrap(), vec![2]);
    assert_eq!(ttl_cache.get(&mut store, 106, "fresh").unwrap().to_vec(), vec![2]);
}

#[test]
fn ttl_handle_expiry_event() {
    let mut store = MetaStore::new();
    let mut ttl_cache = TtlRedisCache::new(TEST_CACHE_DIR, 5, "ttl_event");
    ttl_cache.put(&mut store, 100, "gone", CacheData::from_vec(vec![3]));
    assert_eq!(ttl_cache.read_blob("gone").unwrap(), vec![3]);
    ttl_cache.handle_expiry(&mut store, "__keyspace@0__:ttl_event/gone");
    assert!(ttl_cache.read_blob("gone").is_none());
    // a channel of another instance changes nothing
    ttl_cache.put(&mut store, 100, "kept", CacheData::from_vec(vec![4]));
    ttl_cache.handle_expiry(&mut store, "__keyspace@0__:other_instance/kept");
    assert_eq!(ttl_cache.read_blob("kept").unwrap(), vec![4]);
}

#[test]
fn lru_and_ttl_share_a_store() {
    let mut store = MetaStore::new();
    let mut lru_cache = LruRedisCache::new(TEST_CACHE_DIR, 8, "mixed_lru");
    let mut ttl_cache = TtlRedisCache::new(TEST_CACHE_DIR, 10, "mixed_ttl");
    lru_cache.put(&mut store, 100, "a", CacheData::from_vec(vec![1, 2]));
    ttl_cache.put(&mut store, 100, "a", CacheData::from_vec(vec![3, 4]));
    assert_eq!(lru_cache.get(&mut store, 101, "a").unwrap().to_vec(), vec![1, 2]);
    assert_eq!(ttl_cache.get(&mut store, 101, "a").unwrap().to_vec(), vec![3, 4]);
    assert_eq!(lru_cache.get_total_size(&store), 2);
}

#[test]
fn lru_empty_payload_is_admitted() {
    let mut store = MetaStore::new();
    let mut lru_cache = LruRedisCache::new(TEST_CACHE_DIR, 4, "empty_payload");
    lru_cache.put(&mut store, 100, "void", CacheData::from_vec(vec![]));
    assert_eq!(lru_cache.get_total_size(&store), 0);
    assert_eq!(lru_cache.get(&mut store, 101, "void").unwrap().to_vec(), Vec::<u8>::new());
}
