use mirror_cache::data::CacheData;
use mirror_cache::entry::{CacheEntry, LruCacheMetadata};
use mirror_cache::lru::LruRedisCache;
use mirror_cache::policy::{CachePolicy, NoCache, Policy};
use mirror_cache::store::MetaStore;
use mirror_cache::strutil::{i64_to_dec_string, str_replace_all, u64_to_dec_string};
use mirror_cache::task::{
    BuiltinSettings, Settings, Task, TaskManager, TaskResponse, UpstreamSettings,
};
use mirror_cache::ttl::{
    parse_event_channel, reaper_step, ReaperAction, ReaperEvent, ReaperState,
};

fn settings(url: Option<&str>) -> Settings {
    Settings {
        url: url.map(|u| String::from(u)),
        builtin: BuiltinSettings {
            pypi_index: UpstreamSettings { upstream: String::from("https://pypi.org/simple") },
            pypi_packages: UpstreamSettings {
                upstream: String::from("https://files.pythonhosted.org/packages"),
            },
            anaconda: UpstreamSettings { upstream: String::from("https://conda.anaconda.org") },
        },
    }
}

#[test]
fn task_keys_per_kind() {
    assert_eq!(
        Task::PypiIndexTask { pkg_name: String::from("requests") }.to_key(),
        "pypi_index_requests"
    );
    assert_eq!(
        Task::PypiPackagesTask { pkg_path: String::from("ab/cd/requests.whl") }.to_key(),
        "ab/cd/requests.whl"
    );
    assert_eq!(
        Task::AnacondaTask { path: String::from("main/linux/repodata.json") }.to_key(),
        "anaconda_main/linux/repodata.json"
    );
    assert_eq!(
        Task::Others { rule_id: 3, url: String::from("https://example.com/a") }.to_key(),
        "https/example.com/a"
    );
    assert_eq!(
        Task::Others { rule_id: 3, url: String::from("http://example.com/a") }.to_key(),
        "http/example.com/a"
    );
}

#[test]
fn replace_all_basics() {
    assert_eq!(str_replace_all("aaa", "aa", "b"), "ba");
    assert_eq!(str_replace_all("hello", "", "x"), "hello");
    assert_eq!(str_replace_all("a-b-c", "-", "+"), "a+b+c");
    assert_eq!(str_replace_all("none here", "zz", "q"), "none here");
}

#[test]
fn index_rewrite_points_at_proxy() {
    let task = Task::PypiIndexTask { pkg_name: String::from("requests") };
    let page = String::from(
        "<a href=\"https://files.pythonhosted.org/packages/ab/requests.whl\">requests</a>",
    );
    let out = task.rewrite_upstream(page, "http://localhost:9000");
    assert_eq!(
        out,
        "<a href=\"http://localhost:9000/packages/ab/requests.whl\">requests</a>"
    );
    let other = Task::AnacondaTask { path: String::from("x") };
    let body = String::from("https://files.pythonhosted.org/untouched");
    assert_eq!(other.rewrite_upstream(body.clone(), "http://p"), body);
}

#[test]
fn cache_entry_fields_render_in_decimal() {
    let entry = CacheEntry::new("inst_k", 123, 456);
    let fields = entry.to_redis_multiple_fields();
    assert_eq!(fields.len(), 3);
    assert_eq!(fields[0].0, "path");
    assert_eq!(fields[0].1, "inst_k");
    assert_eq!(fields[1].0, "size");
    assert_eq!(fields[1].1, "123");
    assert_eq!(fields[2].0, "atime");
    assert_eq!(fields[2].1, "456");
    let meta = LruCacheMetadata { size: 0, atime: -5 };
    assert_eq!(u64_to_dec_string(meta.size), "0");
    assert_eq!(i64_to_dec_string(meta.atime), "-5");
    assert_eq!(u64_to_dec_string(18446744073709551615), "18446744073709551615");
}

#[test]
fn task_equality_covers_all_fields() {
    let a = Task::Others { rule_id: 1, url: String::from("http://a") };
    let b = Task::Others { rule_id: 1, url: String::from("http://a") };
    let c = Task::Others { rule_id: 2, url: String::from("http://a") };
    let d = Task::Others { rule_id: 1, url: String::from("http://b") };
    assert!(a == b);
    assert!(a != c);
    assert!(a != d);
    assert!(
        Task::PypiIndexTask { pkg_name: String::from("x") }
            != Task::PypiPackagesTask { pkg_path: String::from("x") }
    );
}

#[test]
fn resolve_task_upstream_concatenates() {
    let tm = TaskManager::new(settings(None));
    assert_eq!(
        tm.resolve_task_upstream(&Task::PypiIndexTask { pkg_name: String::from("flask") }),
        "https://pypi.org/simple/flask"
    );
    assert_eq!(
        tm.resolve_task_upstream(&Task::PypiPackagesTask { pkg_path: String::from("p/f.whl") }),
        "https://files.pythonhosted.org/packages/p/f.whl"
    );
    assert_eq!(
        tm.resolve_task_upstream(&Task::AnacondaTask { path: String::from("r/x.conda") }),
        "https://conda.anaconda.org/r/x.conda"
    );
    assert_eq!(
        tm.resolve_task_upstream(&Task::Others { rule_id: 0, url: String::from("http://mirror/z") }),
        "http://mirror/z"
    );
}

#[test]
fn spawn_task_deduplicates() {
    let mut tm = TaskManager::new(settings(Some("http://me")));
    let task = Task::PypiIndexTask { pkg_name: String::from("numpy") };
    let first = tm.spawn_task(&task);
    assert!(first.is_some());
    let plan = first.unwrap();
    assert_eq!(plan.upstream_url, "https://pypi.org/simple/numpy");
    assert_eq!(plan.rewrite, true);
    assert_eq!(plan.to_url.as_deref(), Some("http://me"));
    // the same task is refused while its refill is in flight
    assert!(tm.spawn_task(&task).is_none());
    assert_eq!(tm.taskset_len(), 1);
    // a different task is admitted
    let other = Task::PypiIndexTask { pkg_name: String::from("scipy") };
    assert!(tm.spawn_task(&other).is_some());
    assert_eq!(tm.taskset_len(), 2);
}

#[test]
fn finish_task_reopens_admission() {
    let mut store = MetaStore::new();
    let mut tm = TaskManager::new(settings(None));
    tm.pypi_pkg_cache = Policy::Lru(LruRedisCache::new("cache", 64, "finish_lru"));
    let task = Task::PypiPackagesTask { pkg_path: String::from("p/q.whl") };
    assert!(tm.spawn_task(&task).is_some());
    assert!(tm.spawn_task(&task).is_none());
    tm.finish_task(&mut store, 100, &task, Some(CacheData::from_vec(vec![5, 6])));
    // the refill stored the body under the task's key
    let got = tm.get(&mut store, 101, &task, &task.to_key());
    assert_eq!(got.unwrap().to_vec(), vec![5, 6]);
    // and admission is open again
    assert!(tm.spawn_task(&task).is_some());
}

#[test]
fn finish_task_rewrites_index_pages() {
    let mut store = MetaStore::new();
    let mut tm = TaskManager::new(settings(Some("http://proxy")));
    tm.pypi_index_cache = Policy::Lru(LruRedisCache::new("cache", 1024, "finish_index"));
    let task = Task::PypiIndexTask { pkg_name: String::from("flask") };
    assert!(tm.spawn_task(&task).is_some());
    let body = String::from("<a href=\"https://files.pythonhosted.org/f.whl\">f</a>");
    tm.finish_task(&mut store, 100, &task, Some(CacheData::from(body)));
    let got = tm.get(&mut store, 101, &task, &task.to_key()).unwrap();
    assert_eq!(
        got.to_vec(),
        "<a href=\"http://proxy/f.whl\">f</a>".as_bytes().to_vec()
    );
}

#[test]
fn failed_fetch_only_leaves_the_set() {
    let mut store = MetaStore::new();
    let mut tm = TaskManager::new(settings(None));
    let task = Task::AnacondaTask { path: String::from("r/a.conda") };
    assert!(tm.spawn_task(&task).is_some());
    tm.finish_task(&mut store, 100, &task, None);
    assert_eq!(tm.taskset_len(), 0);
    assert!(tm.get(&mut store, 101, &task, &task.to_key()).is_none());
}

#[test]
fn nocache_policy_never_hits() {
    let mut store = MetaStore::new();
    let mut nc = NoCache {};
    nc.put(&mut store, 100, "k", CacheData::from_vec(vec![1]));
    assert!(nc.get(&mut store, 100, "k").is_none());
    let mut tm = TaskManager::new(settings(None));
    let task = Task::PypiIndexTask { pkg_name: String::from("torch") };
    assert!(tm.get(&mut store, 100, &task, &task.to_key()).is_none());
}

#[test]
fn rules_route_to_their_policy() {
    let mut store = MetaStore::new();
    let mut tm = TaskManager::new(settings(None));
    tm.add_cache(7, Policy::Lru(LruRedisCache::new("cache", 32, "rule_seven")));
    let task = Task::Others { rule_id: 7, url: String::from("https://mirror.example/db.bin") };
    assert!(tm.spawn_task(&task).is_some());
    tm.finish_task(&mut store, 100, &task, Some(CacheData::from_vec(vec![8])));
    let hit = tm.get(&mut store, 101, &task, &task.to_key());
    assert_eq!(hit.unwrap().to_vec(), vec![8]);
    // an unknown rule misses
    let unknown = Task::Others { rule_id: 9, url: String::from("https://mirror.example/x") };
    assert!(tm.get(&mut store, 101, &unknown, &unknown.to_key()).is_none());
    assert!(tm.get_cache_for_cache_rule(9).is_none());
    assert!(tm.get_cache_for_cache_rule(7).is_some());
}

#[test]
fn resolve_cached_serves_hits() {
    let mut store = MetaStore::new();
    let mut tm = TaskManager::new(settings(None));
    tm.anaconda_cache = Policy::Lru(LruRedisCache::new("cache", 64, "resolve_hit"));
    let task = Task::AnacondaTask { path: String::from("main/r.json") };
    assert!(task.resolve_cached(&mut tm, &mut store, 100).is_none());
    assert!(tm.spawn_task(&task).is_some());
    tm.finish_task(&mut store, 100, &task, Some(CacheData::from_vec(vec![1, 2, 3])));
    match task.resolve_cached(&mut tm, &mut store, 101) {
        Some(TaskResponse::BytesResponse(b)) => assert_eq!(b.as_ref(), &[1, 2, 3]),
        _ => panic!("expected a bytes response"),
    }
}

#[test]
fn process_upstream_rewrites_only_index_text() {
    let index = Task::PypiIndexTask { pkg_name: String::from("flask") };
    let url = Some(String::from("http://proxy"));
    let r = index.process_upstream(
        &url,
        CacheData::TextData(String::from("https://files.pythonhosted.org/a")),
    );
    match r {
        TaskResponse::StringResponse(s) => assert_eq!(s, "http://proxy/a"),
        _ => panic!("expected a text response"),
    }
    let pkg = Task::PypiPackagesTask { pkg_path: String::from("a/b.whl") };
    let r2 = pkg.process_upstream(&url, CacheData::from_vec(vec![1, 2]));
    match r2 {
        TaskResponse::BytesResponse(b) => assert_eq!(b.as_ref(), &[1, 2]),
        _ => panic!("expected a bytes response"),
    }
}

#[test]
fn reaper_steps_follow_the_machine() {
    assert!(matches!(
        reaper_step(&ReaperState::Disconnected, false, &ReaperEvent::Connected),
        (ReaperState::Subscribing, ReaperAction::Subscribe)
    ));
    assert!(matches!(
        reaper_step(&ReaperState::Subscribing, false, &ReaperEvent::Subscribed),
        (ReaperState::Polling, ReaperAction::Poll)
    ));
    assert!(matches!(
        reaper_step(&ReaperState::Polling, false, &ReaperEvent::ReadTimeout),
        (ReaperState::Polling, ReaperAction::Poll)
    ));
    assert!(matches!(
        reaper_step(&ReaperState::Polling, false, &ReaperEvent::Message),
        (ReaperState::Polling, ReaperAction::RemoveBlob)
    ));
    assert!(matches!(
        reaper_step(&ReaperState::Polling, false, &ReaperEvent::ReadError),
        (ReaperState::Disconnected, ReaperAction::Backoff)
    ));
    // a shutdown request stops the reaper from any state
    assert!(matches!(
        reaper_step(&ReaperState::Polling, true, &ReaperEvent::Message),
        (ReaperState::Stopped, ReaperAction::Halt)
    ));
    assert!(matches!(
        reaper_step(&ReaperState::Disconnected, true, &ReaperEvent::ConnectFailed),
        (ReaperState::Stopped, ReaperAction::Halt)
    ));
}

#[test]
fn event_channels_parse_to_cache_keys() {
    assert_eq!(
        parse_event_channel("inst", "__keyspace@0__:inst/pkg/a").as_deref(),
        Some("pkg/a")
    );
    assert_eq!(parse_event_channel("inst", "__keyspace@0__:other/pkg"), None);
    assert_eq!(parse_event_channel("inst", "no colon here"), None);
}
