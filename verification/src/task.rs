//! Request tasks: the closed sum of request kinds, their cache keys and
//! upstream addresses, index-page rewriting, the responses handed back to
//! the front end, and the task manager that routes tasks to cache policies
//! and admits at most one background refill per distinct task.

use crate::data::{spec_data_bytes, spec_data_len, CacheData};
use crate::policy::{independent, lemma_policy_frame, touched_only, Policy, PolSig};
use crate::store::MetaStore;
use crate::strutil::{spec_replace_all, str_replace_all};
use bytes::Bytes;
use vstd::prelude::*;
use vstd::string::*;
use vstd::utf8::encode_utf8;

verus! {

/// The upstream of one route.
pub struct UpstreamSettings {
    pub upstream: String,
}

/// The upstreams of the built-in routes.
pub struct BuiltinSettings {
    pub pypi_index: UpstreamSettings,
    pub pypi_packages: UpstreamSettings,
    pub anaconda: UpstreamSettings,
}

/// The recognised configuration: the proxy's own advertised base address,
/// used for index rewriting, and the built-in upstreams.
pub struct Settings {
    pub url: Option<String>,
    pub builtin: BuiltinSettings,
}

pub type RuleId = usize;

/// One typed request.
#[derive(Clone, Debug, Hash)]
pub enum Task {
    PypiIndexTask { pkg_name: String },
    PypiPackagesTask { pkg_path: String },
    AnacondaTask { path: String },
    Others { rule_id: RuleId, url: String },
}

/// Abstract value of a task.
pub ghost enum TaskView {
    PypiIndex { pkg_name: Seq<char> },
    PypiPackages { pkg_path: Seq<char> },
    Anaconda { path: Seq<char> },
    Others { rule_id: RuleId, url: Seq<char> },
}

impl View for Task {
    type V = TaskView;

    open spec fn view(&self) -> TaskView {
        match self {
            Task::PypiIndexTask { pkg_name } => TaskView::PypiIndex { pkg_name: pkg_name@ },
            Task::PypiPackagesTask { pkg_path } => TaskView::PypiPackages { pkg_path: pkg_path@ },
            Task::AnacondaTask { path } => TaskView::Anaconda { path: path@ },
            Task::Others { rule_id, url } => TaskView::Others { rule_id: *rule_id, url: url@ },
        }
    }
}

impl PartialEq for Task {
    fn eq(&self, other: &Self) -> (r: bool) {
        match (self, other) {
            (Task::PypiIndexTask { pkg_name: a }, Task::PypiIndexTask { pkg_name: b }) => *a
                == *b,
            (
                Task::PypiPackagesTask { pkg_path: a },
                Task::PypiPackagesTask { pkg_path: b },
            ) => *a == *b,
            (Task::AnacondaTask { path: a }, Task::AnacondaTask { path: b }) => *a == *b,
            (
                Task::Others { rule_id: i, url: a },
                Task::Others { rule_id: j, url: b },
            ) => *i == *j && *a == *b,
            _ => false,
        }
    }
}

impl vstd::std_specs::cmp::PartialEqSpecImpl for Task {
    open spec fn obeys_eq_spec() -> bool {
        true
    }

    open spec fn eq_spec(&self, other: &Self) -> bool {
        self@ == other@
    }
}

/// The cache key of a task: built-in kinds carry a kind prefix or their
/// path; free rules use their address with the scheme separators flattened.
pub open spec fn spec_task_key(t: TaskView) -> Seq<char> {
    match t {
        TaskView::PypiIndex { pkg_name } => "pypi_index_"@ + pkg_name,
        TaskView::PypiPackages { pkg_path } => pkg_path,
        TaskView::Anaconda { path } => "anaconda_"@ + path,
        TaskView::Others { url, .. } => spec_replace_all(
            spec_replace_all(url, "http://"@, "http/"@),
            "https://"@,
            "https/"@,
        ),
    }
}

/// What index rewriting does: every occurrence of the canonical package
/// file host is replaced by `to`; other kinds pass text through unchanged.
pub open spec fn spec_rewrite(t: TaskView, input: Seq<char>, to: Seq<char>) -> Seq<char> {
    match t {
        TaskView::PypiIndex { .. } => spec_replace_all(
            input,
            "https://files.pythonhosted.org"@,
            to,
        ),
        _ => input,
    }
}

/// Rewrites a pip-style index page so package links point at `to` instead
/// of the canonical package file host.
pub fn pypi_index_rewrite(input: &str, to: &str) -> (r: String)
    ensures
        r@ == spec_replace_all(input@, "https://files.pythonhosted.org"@, to@),
{
    str_replace_all(input, "https://files.pythonhosted.org", to)
}

impl Task {
    /// An equal task, field for field.
    pub fn duplicate(&self) -> (r: Task)
        ensures
            r == *self,
    {
        match self {
            Task::PypiIndexTask { pkg_name } => Task::PypiIndexTask { pkg_name: pkg_name.clone() },
            Task::PypiPackagesTask { pkg_path } => Task::PypiPackagesTask {
                pkg_path: pkg_path.clone(),
            },
            Task::AnacondaTask { path } => Task::AnacondaTask { path: path.clone() },
            Task::Others { rule_id, url } => Task::Others { rule_id: *rule_id, url: url.clone() },
        }
    }

    /// The task's cache key.
    pub fn to_key(&self) -> (r: String)
        ensures
            r@ == spec_task_key(self@),
    {
        match self {
            Task::PypiIndexTask { pkg_name } => String::from_str("pypi_index_").concat(
                pkg_name.as_str(),
            ),
            Task::PypiPackagesTask { pkg_path } => pkg_path.clone(),
            Task::AnacondaTask { path } => String::from_str("anaconda_").concat(path.as_str()),
            Task::Others { url, .. } => {
                let step = str_replace_all(url.as_str(), "http://", "http/");
                str_replace_all(step.as_str(), "https://", "https/")
            },
        }
    }

    /// Applies the task's rewrite policy to an index page.
    pub fn rewrite_upstream(&self, input: String, to: &str) -> (r: String)
        ensures
            r@ == spec_rewrite(self@, input@, to@),
    {
        match self {
            Task::PypiIndexTask { .. } => pypi_index_rewrite(input.as_str(), to),
            _ => input,
        }
    }
}

/// What the front end receives: a text body, a byte buffer, or a stream.
pub enum TaskResponse {
    StringResponse(String),
    BytesResponse(Bytes),
    StreamResponse(Vec<Bytes>, Option<usize>),
}

/// The body bytes of a response.
pub open spec fn spec_response_bytes(r: TaskResponse) -> Seq<u8> {
    match r {
        TaskResponse::StringResponse(s) => encode_utf8(s@),
        TaskResponse::BytesResponse(b) => crate::data::bytes_content(b),
        TaskResponse::StreamResponse(cs, _) => crate::data::chunks_bytes(cs@),
    }
}

impl From<String> for TaskResponse {
    fn from(s: String) -> (r: TaskResponse) {
        TaskResponse::StringResponse(s)
    }
}

impl vstd::std_specs::convert::FromSpecImpl<String> for TaskResponse {
    open spec fn obeys_from_spec() -> bool {
        true
    }

    open spec fn from_spec(s: String) -> TaskResponse {
        TaskResponse::StringResponse(s)
    }
}

impl From<CacheData> for TaskResponse {
    fn from(cache_data: CacheData) -> (r: TaskResponse) {
        match cache_data {
            CacheData::TextData(text) => TaskResponse::StringResponse(text),
            CacheData::BytesData(bytes) => TaskResponse::BytesResponse(bytes),
            CacheData::ByteStream(chunks, size) => TaskResponse::StreamResponse(chunks, size),
        }
    }
}

impl vstd::std_specs::convert::FromSpecImpl<CacheData> for TaskResponse {
    open spec fn obeys_from_spec() -> bool {
        true
    }

    open spec fn from_spec(cache_data: CacheData) -> TaskResponse {
        match cache_data {
            CacheData::TextData(text) => TaskResponse::StringResponse(text),
            CacheData::BytesData(bytes) => TaskResponse::BytesResponse(bytes),
            CacheData::ByteStream(chunks, size) => TaskResponse::StreamResponse(chunks, size),
        }
    }
}

/// What a background refill needs from the caller: where to fetch, whether
/// the body is rewritten, and the address to rewrite to.
pub struct FetchPlan {
    pub upstream_url: String,
    pub rewrite: bool,
    pub to_url: Option<String>,
}

/// The view of an optional string.
pub open spec fn opt_view(o: Option<String>) -> Option<Seq<char>> {
    match o {
        Some(s) => Some(s@),
        None => None,
    }
}

/// The upstream address of a task: built-in kinds append their path to the
/// configured upstream base; free rules use their address verbatim.
pub open spec fn spec_upstream(cfg: Settings, t: TaskView) -> Seq<char> {
    match t {
        TaskView::PypiIndex { pkg_name } => cfg.builtin.pypi_index.upstream@ + seq!['/']
            + pkg_name,
        TaskView::PypiPackages { pkg_path } => cfg.builtin.pypi_packages.upstream@ + seq!['/']
            + pkg_path,
        TaskView::Anaconda { path } => cfg.builtin.anaconda.upstream@ + seq!['/'] + path,
        TaskView::Others { url, .. } => url,
    }
}

/// The bytes a refill stores: an index page is rewritten to the proxy's own
/// address when one is configured; everything else is stored as fetched.
pub open spec fn spec_refill_bytes(t: TaskView, url: Option<Seq<char>>, d: CacheData) -> Seq<
    u8,
> {
    match (t, d) {
        (TaskView::PypiIndex { .. }, CacheData::TextData(s)) => match url {
            Some(u) => encode_utf8(spec_rewrite(t, s@, u)),
            None => encode_utf8(s@),
        },
        _ => spec_data_bytes(d),
    }
}

/// The accounted length of what a refill stores.
pub open spec fn spec_refill_len(t: TaskView, url: Option<Seq<char>>, d: CacheData) -> Option<
    nat,
> {
    match (t, d) {
        (TaskView::PypiIndex { .. }, CacheData::TextData(s)) => match url {
            Some(u) => Some((encode_utf8(spec_rewrite(t, s@, u)).len() as usize) as nat),
            None => Some((encode_utf8(s@).len() as usize) as nat),
        },
        _ => spec_data_len(d),
    }
}

/// Admission of one background task: a task already in flight is refused,
/// a new one joins the set.
pub open spec fn spawn_model(s: Seq<TaskView>, t: TaskView) -> (bool, Seq<TaskView>) {
    if exists|i: int| 0 <= i < s.len() && s[i] == t {
        (false, s)
    } else {
        (true, s.push(t))
    }
}

/// Spawning the same task twice without finishing it admits it at most
/// once: the second admission is always refused.
pub proof fn lemma_spawn_dedup(s: Seq<TaskView>, t: TaskView)
    ensures
        !spawn_model(spawn_model(s, t).1, t).0,
{
    if spawn_model(s, t).0 {
        assert(spawn_model(s, t).1[s.len() as int] == t);
    }
}

/// Routes tasks to cache policies: one policy per built-in kind, a policy
/// per user rule, and the process-local in-flight set that bounds
/// concurrent background refills.
pub struct TaskManager {
    pub config: Settings,
    pub pypi_index_cache: Policy,
    pub pypi_pkg_cache: Policy,
    pub anaconda_cache: Policy,
    pub cache_map: Vec<(RuleId, Policy)>,
    task_set: Vec<Task>,
}

impl TaskManager {
    pub closed spec fn spec_config(&self) -> Settings {
        self.config
    }

    /// The views of the in-flight tasks, in insertion order.
    pub closed spec fn tasks(&self) -> Seq<TaskView> {
        self.task_set@.map_values(|t: Task| t@)
    }

    pub closed spec fn rules(&self) -> Seq<(RuleId, Policy)> {
        self.cache_map@
    }

    /// The three built-in route policies.
    pub closed spec fn routes(&self) -> (Policy, Policy, Policy) {
        (self.pypi_index_cache, self.pypi_pkg_cache, self.anaconda_cache)
    }

    /// Whether a refill of `t` is in flight.
    pub open spec fn in_flight(&self, t: TaskView) -> bool {
        exists|i: int| 0 <= i < self.tasks().len() && self.tasks()[i] == t
    }

    /// Rule ids are wired at most once.
    pub closed spec fn rules_distinct(&self) -> bool {
        forall|i: int, j: int|
            0 <= i < j < self.cache_map@.len() ==> (#[trigger] self.cache_map@[i]).0 != (
            #[trigger] self.cache_map@[j]).0
    }

    /// The policy of a user rule.
    pub closed spec fn rule_lookup(&self, id: RuleId) -> Option<Policy> {
        if exists|i: int| 0 <= i < self.cache_map@.len() && self.cache_map@[i].0 == id {
            Some(
                self.cache_map@[choose|i: int|
                    0 <= i < self.cache_map@.len() && self.cache_map@[i].0 == id].1,
            )
        } else {
            None
        }
    }

    /// The policy a task is routed to.
    pub closed spec fn spec_policy(&self, t: TaskView) -> Option<Policy> {
        match t {
            TaskView::PypiIndex { .. } => Some(self.pypi_index_cache),
            TaskView::PypiPackages { .. } => Some(self.pypi_pkg_cache),
            TaskView::Anaconda { .. } => Some(self.anaconda_cache),
            TaskView::Others { rule_id, .. } => self.rule_lookup(rule_id),
        }
    }

    /// Whether the rule a task names is wired to a policy.
    pub open spec fn rule_known(&self, t: TaskView) -> bool {
        match t {
            TaskView::Others { .. } => self.spec_policy(t) is Some,
            _ => true,
        }
    }

    /// Every policy is consistent against the store.
    pub closed spec fn inv(&self, s: MetaStore) -> bool {
        &&& self.pypi_index_cache.pinv(s)
        &&& self.pypi_pkg_cache.pinv(s)
        &&& self.anaconda_cache.pinv(s)
        &&& forall|i: int|
            0 <= i < self.cache_map@.len() ==> (#[trigger] self.cache_map@[i]).1.pinv(s)
    }

    /// The policies cannot see each other's keys, rule ids are unique, and
    /// no task is in flight twice.
    pub closed spec fn indep(&self) -> bool {
        &&& independent(self.pypi_index_cache.sig(), self.pypi_pkg_cache.sig())
        &&& independent(self.pypi_index_cache.sig(), self.anaconda_cache.sig())
        &&& independent(self.pypi_pkg_cache.sig(), self.anaconda_cache.sig())
        &&& forall|i: int|
            0 <= i < self.cache_map@.len() ==> independent(
                (#[trigger] self.cache_map@[i]).1.sig(),
                self.pypi_index_cache.sig(),
            ) && independent(self.cache_map@[i].1.sig(), self.pypi_pkg_cache.sig())
                && independent(self.cache_map@[i].1.sig(), self.anaconda_cache.sig())
        &&& forall|i: int, j: int|
            0 <= i < j < self.cache_map@.len() ==> independent(
                (#[trigger] self.cache_map@[i]).1.sig(),
                (#[trigger] self.cache_map@[j]).1.sig(),
            )
        &&& self.rules_distinct()
        &&& forall|i: int, j: int| 0 <= i < j < self.tasks().len() ==> self.tasks()[i]
            != self.tasks()[j]
    }

    /// What every policy asks of the clock reading `now`.
    pub closed spec fn now_ok_all(&self, now: i64) -> bool {
        &&& self.pypi_index_cache.now_ok(now)
        &&& self.pypi_pkg_cache.now_ok(now)
        &&& self.anaconda_cache.now_ok(now)
        &&& forall|i: int|
            0 <= i < self.cache_map@.len() ==> (#[trigger] self.cache_map@[i]).1.now_ok(now)
    }

    /// Whether a new policy may join: it must be independent of each
    /// policy already wired in.
    pub closed spec fn compatible(&self, p: Policy) -> bool {
        &&& independent(p.sig(), self.pypi_index_cache.sig())
        &&& independent(p.sig(), self.pypi_pkg_cache.sig())
        &&& independent(p.sig(), self.anaconda_cache.sig())
        &&& forall|i: int|
            0 <= i < self.cache_map@.len() ==> independent(
                p.sig(),
                (#[trigger] self.cache_map@[i]).1.sig(),
            )
    }

    /// A manager with no policies wired in: every route starts uncached.
    pub fn new(config: Settings) -> (r: Self)
        ensures
            r.spec_config() == config,
            r.tasks() == Seq::<TaskView>::empty(),
            r.rules() == Seq::<(RuleId, Policy)>::empty(),
            forall|s: MetaStore| r.inv(s),
            r.indep(),
            forall|now: i64| r.now_ok_all(now),
    {
        let r = TaskManager {
            config: config,
            pypi_index_cache: Policy::NoCache(crate::policy::NoCache {}),
            pypi_pkg_cache: Policy::NoCache(crate::policy::NoCache {}),
            anaconda_cache: Policy::NoCache(crate::policy::NoCache {}),
            cache_map: Vec::new(),
            task_set: Vec::new(),
        };
        proof {
            assert(r.tasks() =~= Seq::<TaskView>::empty());
        }
        r
    }

    fn taskset_contains(&self, t: &Task) -> (r: bool)
        ensures
            r == self.in_flight(t@),
    {
        let n = self.task_set.len();
        let mut i: usize = 0;
        while i < n
            invariant
                i <= n,
                n == self.task_set@.len(),
                forall|j: int| 0 <= j < i ==> self.tasks()[j] != t@,
            decreases n - i,
        {
            proof {
                assert(self.tasks()[i as int] == self.task_set@[i as int]@);
            }
            if self.task_set[i] == *t {
                return true;
            }
            i = i + 1;
        }
        false
    }

    fn taskset_add(&mut self, t: Task)
        ensures
            final(self).tasks() == old(self).tasks().push(t@),
            final(self).config == old(self).config,
            final(self).pypi_index_cache == old(self).pypi_index_cache,
            final(self).pypi_pkg_cache == old(self).pypi_pkg_cache,
            final(self).anaconda_cache == old(self).anaconda_cache,
            final(self).cache_map == old(self).cache_map,
    {
        self.task_set.push(t);
        proof {
            assert(final(self).tasks() =~= old(self).tasks().push(self.task_set@.last()@));
        }
    }

    fn taskset_remove(&mut self, t: &Task)
        ensures
            final(self).config == old(self).config,
            final(self).pypi_index_cache == old(self).pypi_index_cache,
            final(self).pypi_pkg_cache == old(self).pypi_pkg_cache,
            final(self).anaconda_cache == old(self).anaconda_cache,
            final(self).cache_map == old(self).cache_map,
            if old(self).in_flight(t@) {
                exists|i: int|
                    0 <= i < old(self).tasks().len() && old(self).tasks()[i] == t@ && final(self).tasks() == old(self).tasks().remove(i)
            } else {
                final(self).tasks() == old(self).tasks()
            },
    {
        let n = self.task_set.len();
        let mut i: usize = 0;
        while i < n
            invariant
                i <= n,
                n == self.task_set@.len(),
                *self == *old(self),
                forall|j: int| 0 <= j < i ==> self.tasks()[j] != t@,
            decreases n - i,
        {
            proof {
                assert(self.tasks()[i as int] == self.task_set@[i as int]@);
            }
            if self.task_set[i] == *t {
                self.task_set.remove(i);
                proof {
                    assert(final(self).tasks() =~= old(self).tasks().remove(i as int));
                }
                return ;
            }
            i = i + 1;
        }
    }

    /// How many refills are in flight.
    pub fn taskset_len(&self) -> (r: usize)
        ensures
            r == self.tasks().len(),
    {
        self.task_set.len()
    }

    fn rule_position(&self, id: RuleId) -> (r: Option<usize>)
        ensures
            match r {
                Some(i) => i < self.cache_map@.len() && self.cache_map@[i as int].0 == id,
                None => forall|i: int|
                    0 <= i < self.cache_map@.len() ==> (#[trigger] self.cache_map@[i]).0 != id,
            },
    {
        let n = self.cache_map.len();
        let mut i: usize = 0;
        while i < n
            invariant
                i <= n,
                n == self.cache_map@.len(),
                forall|j: int| 0 <= j < i ==> (#[trigger] self.cache_map@[j]).0 != id,
            decreases n - i,
        {
            if self.cache_map[i].0 == id {
                return Some(i);
            }
            i = i + 1;
        }
        None
    }

    /// Wires `cache` in for rule `rule_id`, replacing any previous policy
    /// of that rule.
    pub fn add_cache(&mut self, rule_id: RuleId, cache: Policy)
        requires
            old(self).rules_distinct(),
        ensures
            final(self).rules_distinct(),
            final(self).spec_config() == old(self).spec_config(),
            final(self).tasks() == old(self).tasks(),
            final(self).routes() == old(self).routes(),
            final(self).rule_lookup(rule_id) == Some(cache),
            forall|s: MetaStore| old(self).inv(s) && cache.pinv(s) ==> final(self).inv(s),
            old(self).indep() && old(self).compatible(cache) ==> final(self).indep(),
    {
        match self.rule_position(rule_id) {
            Some(i) => {
                self.cache_map[i] = (rule_id, cache);
                proof {
                    assert(self.cache_map@[i as int].0 == rule_id);
                    let w = choose|w: int|
                        0 <= w < self.cache_map@.len() && self.cache_map@[w].0 == rule_id;
                    if w != i {
                        assert(self.cache_map@[w] == old(self).cache_map@[w]);
                        assert(old(self).cache_map@[w].0 == rule_id);
                        assert(old(self).cache_map@[i as int].0 == rule_id);
                        assert(false);
                    }
                }
            },
            None => {
                self.cache_map.push((rule_id, cache));
                proof {
                    let n = self.cache_map@.len() - 1;
                    assert(self.cache_map@[n].0 == rule_id);
                    let w = choose|w: int|
                        0 <= w < self.cache_map@.len() && self.cache_map@[w].0 == rule_id;
                    if w < n {
                        assert(self.cache_map@[w] == old(self).cache_map@[w]);
                        assert(old(self).cache_map@[w].0 == rule_id);
                        assert(false);
                    }
                }
            },
        }
    }

    /// The policy wired in for a rule.
    pub fn get_cache_for_cache_rule(&self, rule_id: RuleId) -> (r: Option<&Policy>)
        requires
            self.rules_distinct(),
        ensures
            match r {
                Some(p) => self.rule_lookup(rule_id) == Some(*p),
                None => self.rule_lookup(rule_id) is None,
            },
    {
        match self.rule_position(rule_id) {
            Some(i) => {
                proof {
                    let w = choose|w: int|
                        0 <= w < self.cache_map@.len() && self.cache_map@[w].0 == rule_id;
                    assert(w == i as int);
                }
                Some(&self.cache_map[i].1)
            },
            None => None,
        }
    }

    /// The upstream address a task resolves to.
    pub fn resolve_task_upstream(&self, task_type: &Task) -> (r: String)
        ensures
            r@ == spec_upstream(self.spec_config(), task_type@),
    {
        proof {
            reveal_strlit("/");
        }
        match task_type {
            Task::PypiIndexTask { pkg_name } => {
                let r = self.config.builtin.pypi_index.upstream.clone().concat("/").concat(
                    pkg_name.as_str(),
                );
                proof {
                    assert(r@ =~= spec_upstream(self.spec_config(), task_type@));
                }
                r
            },
            Task::PypiPackagesTask { pkg_path } => {
                let r = self.config.builtin.pypi_packages.upstream.clone().concat("/").concat(
                    pkg_path.as_str(),
                );
                proof {
                    assert(r@ =~= spec_upstream(self.spec_config(), task_type@));
                }
                r
            },
            Task::AnacondaTask { path } => {
                let r = self.config.builtin.anaconda.upstream.clone().concat("/").concat(
                    path.as_str(),
                );
                proof {
                    assert(r@ =~= spec_upstream(self.spec_config(), task_type@));
                }
                r
            },
            Task::Others { url, .. } => url.clone(),
        }
    }

    /// Admits one background refill of `task`: a task already in flight is
    /// refused, a new one joins the in-flight set and gets its fetch plan.
    pub fn spawn_task(&mut self, task: &Task) -> (r: Option<FetchPlan>)
        requires
            old(self).rule_known(task@),
        ensures
            final(self).spec_config() == old(self).spec_config(),
            final(self).routes() == old(self).routes(),
            final(self).rules() == old(self).rules(),
            (r is Some) == spawn_model(old(self).tasks(), task@).0,
            final(self).tasks() == spawn_model(old(self).tasks(), task@).1,
            match r {
                Some(plan) => plan.upstream_url@ == spec_upstream(
                    old(self).spec_config(),
                    task@,
                ) && plan.rewrite == (task@ is PypiIndex) && opt_view(plan.to_url) == (
                if task@ is PypiIndex {
                    opt_view(old(self).spec_config().url)
                } else {
                    Option::<Seq<char>>::None
                }),
                None => true,
            },
    {
        if self.taskset_contains(task) {
            return None;
        }
        self.taskset_add(task.duplicate());
        let upstream_url = self.resolve_task_upstream(task);
        let rewrite: bool;
        let to_url: Option<String>;
        match task {
            Task::PypiIndexTask { .. } => {
                rewrite = true;
                to_url = match &self.config.url {
                    Some(u) => Some(u.clone()),
                    None => None,
                };
            },
            _ => {
                rewrite = false;
                to_url = None;
            },
        }
        Some(FetchPlan { upstream_url, rewrite, to_url })
    }

    /// Looks a task's key up in the policy its kind is routed to.
    pub fn get(&mut self, store: &mut MetaStore, now: i64, task_type: &Task, key: &str) -> (r:
        Option<CacheData>)
        requires
            old(store).wf(),
            old(self).inv(*old(store)),
            old(self).indep(),
        ensures
            final(store).wf(),
            final(self).inv(*final(store)),
            final(self).indep(),
            final(self).spec_config() == old(self).spec_config(),
            final(self).tasks() == old(self).tasks(),
            match old(self).spec_policy(task_type@) {
                Some(p) => (r is Some <==> p.key_present(*old(store), key@, now)) && match r {
                    Some(d) => spec_data_bytes(d) == p.blob_of(key@),
                    None => true,
                },
                None => r is None && *final(store) == *old(store) && *final(self) == *old(self),
            },
    {
        match task_type {
            Task::PypiIndexTask { .. } => {
                let ghost sig0 = self.pypi_index_cache.sig();
                let r = self.pypi_index_cache.get(store, now, key);
                proof {
                    self.frame_others_index(sig0, *old(store), *store, *old(self));
                }
                r
            },
            Task::PypiPackagesTask { .. } => {
                let ghost sig0 = self.pypi_pkg_cache.sig();
                let r = self.pypi_pkg_cache.get(store, now, key);
                proof {
                    self.frame_others_pkg(sig0, *old(store), *store, *old(self));
                }
                r
            },
            Task::AnacondaTask { .. } => {
                let ghost sig0 = self.anaconda_cache.sig();
                let r = self.anaconda_cache.get(store, now, key);
                proof {
                    self.frame_others_anaconda(sig0, *old(store), *store, *old(self));
                }
                r
            },
            Task::Others { rule_id, .. } => {
                match self.rule_position(*rule_id) {
                    Some(i) => {
                        proof {
                            let w = choose|w: int|
                                0 <= w < self.cache_map@.len() && self.cache_map@[w].0
                                    == *rule_id;
                            assert(w == i as int);
                        }
                        let mut pair = self.cache_map.remove(i);
                        let ghost sig0 = pair.1.sig();
                        let r = pair.1.get(store, now, key);
                        self.cache_map.insert(i, pair);
                        proof {
                            assert(self.cache_map@ =~= old(self).cache_map@.update(
                                i as int,
                                self.cache_map@[i as int],
                            ));
                            self.frame_others_rule(sig0, *old(store), *store, *old(self), i as int);
                        }
                        r
                    },
                    None => None,
                }
            },
        }
    }

    /// After one policy of the manager ran an operation, every other wired
    /// policy is still consistent.
    proof fn frame_others_index(&self, sig: PolSig, s1: MetaStore, s2: MetaStore, pre: TaskManager)
        requires
            pre.inv(s1),
            pre.indep(),
            touched_only(sig, s1, s2),
            sig == pre.pypi_index_cache.sig(),
            self.pypi_index_cache.pinv(s2),
            self.pypi_index_cache.sig() == sig,
            self.pypi_pkg_cache == pre.pypi_pkg_cache,
            self.anaconda_cache == pre.anaconda_cache,
            self.cache_map@ == pre.cache_map@,
            self.tasks() == pre.tasks(),
        ensures
            self.inv(s2),
            self.indep(),
    {
        lemma_policy_frame(sig, s1, s2, pre.pypi_pkg_cache);
        lemma_policy_frame(sig, s1, s2, pre.anaconda_cache);
        assert forall|i: int| 0 <= i < self.cache_map@.len() implies (
        #[trigger] self.cache_map@[i]).1.pinv(s2) by {
            lemma_policy_frame(sig, s1, s2, pre.cache_map@[i].1);
        }
    }

    proof fn frame_others_pkg(&self, sig: PolSig, s1: MetaStore, s2: MetaStore, pre: TaskManager)
        requires
            pre.inv(s1),
            pre.indep(),
            touched_only(sig, s1, s2),
            sig == pre.pypi_pkg_cache.sig(),
            self.pypi_pkg_cache.pinv(s2),
            self.pypi_pkg_cache.sig() == sig,
            self.pypi_index_cache == pre.pypi_index_cache,
            self.anaconda_cache == pre.anaconda_cache,
            self.cache_map@ == pre.cache_map@,
            self.tasks() == pre.tasks(),
        ensures
            self.inv(s2),
            self.indep(),
    {
        lemma_policy_frame(sig, s1, s2, pre.pypi_index_cache);
        lemma_policy_frame(sig, s1, s2, pre.anaconda_cache);
        assert forall|i: int| 0 <= i < self.cache_map@.len() implies (
        #[trigger] self.cache_map@[i]).1.pinv(s2) by {
            lemma_policy_frame(sig, s1, s2, pre.cache_map@[i].1);
        }
    }

    proof fn frame_others_anaconda(
        &self,
        sig: PolSig,
        s1: MetaStore,
        s2: MetaStore,
        pre: TaskManager,
    )
        requires
            pre.inv(s1),
            pre.indep(),
            touched_only(sig, s1, s2),
            sig == pre.anaconda_cache.sig(),
            self.anaconda_cache.pinv(s2),
            self.anaconda_cache.sig() == sig,
            self.pypi_index_cache == pre.pypi_index_cache,
            self.pypi_pkg_cache == pre.pypi_pkg_cache,
            self.cache_map@ == pre.cache_map@,
            self.tasks() == pre.tasks(),
        ensures
            self.inv(s2),
            self.indep(),
    {
        lemma_policy_frame(sig, s1, s2, pre.pypi_index_cache);
        lemma_policy_frame(sig, s1, s2, pre.pypi_pkg_cache);
        assert forall|i: int| 0 <= i < self.cache_map@.len() implies (
        #[trigger] self.cache_map@[i]).1.pinv(s2) by {
            lemma_policy_frame(sig, s1, s2, pre.cache_map@[i].1);
        }
    }

    proof fn frame_others_rule(
        &self,
        sig: PolSig,
        s1: MetaStore,
        s2: MetaStore,
        pre: TaskManager,
        at: int,
    )
        requires
            pre.inv(s1),
            pre.indep(),
            touched_only(sig, s1, s2),
            0 <= at < pre.cache_map@.len(),
            sig == pre.cache_map@[at].1.sig(),
            self.cache_map@.len() == pre.cache_map@.len(),
            self.cache_map@[at].0 == pre.cache_map@[at].0,
            self.cache_map@[at].1.pinv(s2),
            self.cache_map@[at].1.sig() == sig,
            forall|j: int|
                0 <= j < pre.cache_map@.len() && j != at ==> self.cache_map@[j]
                    == pre.cache_map@[j],
            self.pypi_index_cache == pre.pypi_index_cache,
            self.pypi_pkg_cache == pre.pypi_pkg_cache,
            self.anaconda_cache == pre.anaconda_cache,
            self.tasks() == pre.tasks(),
        ensures
            self.inv(s2),
            self.indep(),
    {
        lemma_policy_frame(sig, s1, s2, pre.pypi_index_cache);
        lemma_policy_frame(sig, s1, s2, pre.pypi_pkg_cache);
        lemma_policy_frame(sig, s1, s2, pre.anaconda_cache);
        assert forall|i: int| 0 <= i < self.cache_map@.len() implies (
        #[trigger] self.cache_map@[i]).1.pinv(s2) by {
            if i != at {
                lemma_policy_frame(sig, s1, s2, pre.cache_map@[i].1);
            }
        }
    }

    /// Completes one background refill: a fetched body is stored through the
    /// task's policy, with index pages rewritten first, and the task leaves
    /// the in-flight set. A failed fetch only leaves the set.
    pub fn finish_task(
        &mut self,
        store: &mut MetaStore,
        now: i64,
        task: &Task,
        fetched: Option<CacheData>,
    )
        requires
            old(store).wf(),
            old(self).inv(*old(store)),
            old(self).indep(),
            old(self).now_ok_all(now),
            old(self).rule_known(task@),
        ensures
            final(store).wf(),
            final(self).inv(*final(store)),
            final(self).indep(),
            final(self).spec_config() == old(self).spec_config(),
            !final(self).in_flight(task@),
            match fetched {
                Some(d) => match old(self).spec_policy(task@) {
                    Some(p) => p.admits(
                        spec_refill_len(task@, opt_view(old(self).spec_config().url), d),
                    ) ==> match final(self).spec_policy(task@) {
                        Some(p2) => p2.key_present(*final(store), spec_task_key(task@), now)
                            && p2.blob_of(spec_task_key(task@)) == spec_refill_bytes(
                            task@,
                            opt_view(old(self).spec_config().url),
                            d,
                        ),
                        None => false,
                    },
                    None => true,
                },
                None => true,
            },
    {
        match fetched {
            Some(data) => {
                let key = task.to_key();
                let stored: CacheData = match data {
                    CacheData::TextData(text) => match task {
                        Task::PypiIndexTask { .. } => match &self.config.url {
                            Some(u) => {
                                let u2 = u.clone();
                                CacheData::TextData(task.rewrite_upstream(text, u2.as_str()))
                            },
                            None => CacheData::TextData(text),
                        },
                        _ => CacheData::TextData(text),
                    },
                    other => other,
                };
                match task {
                    Task::PypiIndexTask { .. } => {
                        let ghost sig0 = self.pypi_index_cache.sig();
                        self.pypi_index_cache.put(store, now, &key, stored);
                        proof {
                            self.frame_others_index(sig0, *old(store), *store, *old(self));
                        }
                    },
                    Task::PypiPackagesTask { .. } => {
                        let ghost sig0 = self.pypi_pkg_cache.sig();
                        self.pypi_pkg_cache.put(store, now, &key, stored);
                        proof {
                            self.frame_others_pkg(sig0, *old(store), *store, *old(self));
                        }
                    },
                    Task::AnacondaTask { .. } => {
                        let ghost sig0 = self.anaconda_cache.sig();
                        self.anaconda_cache.put(store, now, &key, stored);
                        proof {
                            self.frame_others_anaconda(sig0, *old(store), *store, *old(self));
                        }
                    },
                    Task::Others { rule_id, .. } => {
                        match self.rule_position(*rule_id) {
                            Some(i) => {
                                let mut pair = self.cache_map.remove(i);
                                let ghost sig0 = pair.1.sig();
                                proof {
                                    assert(old(self).cache_map@[i as int].1.pinv(*old(store)));
                                    assert(old(self).cache_map@[i as int].1.now_ok(now));
                                }
                                pair.1.put(store, now, &key, stored);
                                self.cache_map.insert(i, pair);
                                proof {
                                    assert(self.cache_map@ =~= old(self).cache_map@.update(
                                        i as int,
                                        self.cache_map@[i as int],
                                    ));
                                    self.frame_others_rule(
                                        sig0,
                                        *old(store),
                                        *store,
                                        *old(self),
                                        i as int,
                                    );
                                }
                            },
                            None => {
                                // the admission check requires the rule to be
                                // wired in, so this cannot be reached
                                proof {
                                    assert(false);
                                }
                            },
                        }
                    },
                }
            },
            None => {},
        }
        let ghost before = self.tasks();
        self.taskset_remove(task);
        proof {
            assert(before == old(self).tasks());
            if self.in_flight(task@) {
                let w = choose|w: int|
                    0 <= w < self.tasks().len() && self.tasks()[w] == task@;
                if exists|i: int| 0 <= i < before.len() && before[i] == task@ {
                    let i = choose|i: int|
                        0 <= i < before.len() && before[i] == task@ && self.tasks()
                            == before.remove(i);
                    if w < i {
                        assert(before[w] == task@);
                    } else {
                        assert(before[w + 1] == task@);
                    }
                    assert(false);
                } else {
                    assert(false);
                }
            }
        }
    }
}

impl Task {
    /// Serves `self` from its policy's cache: the payload on a hit, nothing
    /// on a miss.
    pub fn resolve_cached(&self, tm: &mut TaskManager, store: &mut MetaStore, now: i64) -> (r:
        Option<TaskResponse>)
        requires
            old(store).wf(),
            old(tm).inv(*old(store)),
            old(tm).indep(),
        ensures
            final(store).wf(),
            final(tm).inv(*final(store)),
            final(tm).indep(),
            final(tm).spec_config() == old(tm).spec_config(),
            final(tm).tasks() == old(tm).tasks(),
            match old(tm).spec_policy(self@) {
                Some(p) => (r is Some <==> p.key_present(
                    *old(store),
                    spec_task_key(self@),
                    now,
                )) && match r {
                    Some(resp) => spec_response_bytes(resp) == p.blob_of(spec_task_key(self@)),
                    None => true,
                },
                None => r is None,
            },
    {
        let key = self.to_key();
        match tm.get(store, now, self, key.as_str()) {
            Some(data) => Some(TaskResponse::from(data)),
            None => None,
        }
    }

    /// Turns a fetched upstream body into the response the caller receives:
    /// an index page is rewritten to the proxy's own address when one is
    /// configured; any other body streams through unchanged.
    pub fn process_upstream(&self, self_url: &Option<String>, fetched: CacheData) -> (r:
        TaskResponse)
        ensures
            spec_response_bytes(r) == spec_refill_bytes(self@, opt_view(*self_url), fetched),
    {
        match fetched {
            CacheData::TextData(text) => match self {
                Task::PypiIndexTask { .. } => match self_url {
                    Some(u) => TaskResponse::StringResponse(self.rewrite_upstream(text, u.as_str())),
                    None => TaskResponse::StringResponse(text),
                },
                _ => TaskResponse::StringResponse(text),
            },
            other => TaskResponse::from(other),
        }
    }
}

} // verus!
