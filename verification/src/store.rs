//! In-memory model of the shared metadata store: a key/value service with
//! counters, entry-metadata hashes, sorted sets scored by access time with
//! pop-minimum, and string markers that expire at an absolute time. Several
//! cache instances share one store and stay apart through key prefixes.

use crate::kv::KvList;
use vstd::prelude::*;

verus! {

/// The fields of one cache entry's metadata hash.
pub struct EntryFields {
    pub path: String,
    pub size: u64,
    pub atime: i64,
}

/// Abstract value of `EntryFields`.
pub ghost struct FieldsSnap {
    pub path: Seq<char>,
    pub size: u64,
    pub atime: i64,
}

impl View for EntryFields {
    type V = FieldsSnap;

    open spec fn view(&self) -> FieldsSnap {
        FieldsSnap { path: self.path@, size: self.size, atime: self.atime }
    }
}

/// A string marker with an optional absolute expiry time.
pub struct StrEntry {
    pub value: String,
    pub expire_at: Option<i64>,
}

/// Abstract value of `StrEntry`.
pub ghost struct StrSnap {
    pub value: Seq<char>,
    pub expire_at: Option<i64>,
}

impl View for StrEntry {
    type V = StrSnap;

    open spec fn view(&self) -> StrSnap {
        StrSnap { value: self.value@, expire_at: self.expire_at }
    }
}

/// Members of a sorted set are pairwise distinct.
pub open spec fn zdistinct(s: Seq<(Seq<char>, i64)>) -> bool {
    forall|i: int, j: int| 0 <= i < j < s.len() ==> s[i].0 != s[j].0
}

/// The position of the first member with the least score.
pub open spec fn zmin_idx(s: Seq<(Seq<char>, i64)>) -> int
    decreases s.len(),
{
    if s.len() <= 1 {
        0
    } else {
        let j = zmin_idx(s.drop_last());
        if s.last().1 < s[j].1 {
            s.len() - 1
        } else {
            j
        }
    }
}

pub proof fn lemma_zmin_props(s: Seq<(Seq<char>, i64)>)
    requires
        s.len() > 0,
    ensures
        0 <= zmin_idx(s) < s.len(),
        forall|i: int| 0 <= i < s.len() ==> s[zmin_idx(s)].1 <= #[trigger] s[i].1,
    decreases s.len(),
{
    if s.len() > 1 {
        lemma_zmin_props(s.drop_last());
        assert(forall|i: int| 0 <= i < s.len() - 1 ==> s.drop_last()[i] == s[i]);
    }
}

/// The sorted set after adding `m` with `score`: an existing member keeps its
/// place with the new score, a new member goes to the back.
pub open spec fn zupsert(s: Seq<(Seq<char>, i64)>, m: Seq<char>, sc: i64) -> Seq<
    (Seq<char>, i64),
> {
    if exists|i: int| 0 <= i < s.len() && s[i].0 == m {
        s.update(choose|i: int| 0 <= i < s.len() && s[i].0 == m, (m, sc))
    } else {
        s.push((m, sc))
    }
}

/// One sorted set: members with scores, in insertion order.
pub struct ZList {
    items: Vec<(String, i64)>,
}

impl View for ZList {
    type V = Seq<(Seq<char>, i64)>;

    closed spec fn view(&self) -> Seq<(Seq<char>, i64)> {
        self.items@.map_values(|p: (String, i64)| (p.0@, p.1))
    }
}

impl ZList {
    pub fn new() -> (r: Self)
        ensures
            r@ == Seq::<(Seq<char>, i64)>::empty(),
    {
        let r = ZList { items: Vec::new() };
        proof {
            assert(r@ =~= Seq::<(Seq<char>, i64)>::empty());
        }
        r
    }

    fn position(&self, m: &String) -> (r: Option<usize>)
        ensures
            match r {
                Some(i) => i < self@.len() && self@[i as int].0 == m@,
                None => forall|i: int| 0 <= i < self@.len() ==> self@[i].0 != m@,
            },
    {
        let n = self.items.len();
        let mut i: usize = 0;
        while i < n
            invariant
                i <= n,
                n == self@.len(),
                n == self.items@.len(),
                forall|j: int| 0 <= j < i ==> self@[j].0 != m@,
            decreases n - i,
        {
            assert(self@[i as int] == (self.items@[i as int].0@, self.items@[i as int].1));
            if self.items[i].0 == *m {
                return Some(i);
            }
            i = i + 1;
        }
        None
    }

    pub fn upsert(&mut self, m: &String, score: i64)
        requires
            zdistinct(old(self)@),
        ensures
            zdistinct(final(self)@),
            final(self)@ == zupsert(old(self)@, m@, score),
    {
        let pair = (m.clone(), score);
        match self.position(m) {
            Some(i) => {
                proof {
                    let s = old(self)@;
                    let w = choose|w: int| 0 <= w < s.len() && s[w].0 == m@;
                    assert(w == i as int);
                    assert(self.items@.update(i as int, pair).map_values(
                        |p: (String, i64)| (p.0@, p.1),
                    ) =~= s.update(i as int, (m@, score)));
                }
                self.items[i] = pair;
            },
            None => {
                proof {
                    let s = old(self)@;
                    assert(self.items@.push(pair).map_values(|p: (String, i64)| (p.0@, p.1))
                        =~= s.push((m@, score)));
                }
                self.items.push(pair);
            },
        }
    }

    pub fn pop_min(&mut self) -> (r: Option<(String, i64)>)
        ensures
            old(self)@.len() == 0 ==> r is None && final(self)@ == old(self)@,
            old(self)@.len() > 0 ==> match r {
                Some(p) => (p.0@, p.1) == old(self)@[zmin_idx(old(self)@)] && final(self)@
                    == old(self)@.remove(zmin_idx(old(self)@)),
                None => false,
            },
            zdistinct(old(self)@) ==> zdistinct(final(self)@),
    {
        let n = self.items.len();
        if n == 0 {
            return None;
        }
        let mut best: usize = 0;
        let mut i: usize = 1;
        proof {
            assert(self@.take(1) =~= seq![self@[0]]);
        }
        while i < n
            invariant
                1 <= i <= n,
                best < i,
                n == self@.len(),
                n == self.items@.len(),
                best as int == zmin_idx(self@.take(i as int)),
            decreases n - i,
        {
            proof {
                assert(self@.take(i as int + 1).drop_last() =~= self@.take(i as int));
                assert(self@.take(i as int + 1).last() == self@[i as int]);
                assert(forall|j: int|
                    0 <= j < i ==> self@.take(i as int + 1)[j] == self@[j]);
                assert(self@[i as int] == (self.items@[i as int].0@, self.items@[i as int].1));
                assert(self@[best as int] == (
                    self.items@[best as int].0@,
                    self.items@[best as int].1,
                ));
            }
            if self.items[i].1 < self.items[best].1 {
                best = i;
            }
            i = i + 1;
        }
        proof {
            assert(self@.take(n as int) =~= self@);
            assert(self@[best as int] == (
                self.items@[best as int].0@,
                self.items@[best as int].1,
            ));
            assert(self.items@.remove(best as int).map_values(|p: (String, i64)| (p.0@, p.1))
                =~= self@.remove(best as int));
        }
        let pair = self.items.remove(best);
        Some(pair)
    }
}

/// The shared metadata store: four tables over one key space each.
pub struct MetaStore {
    counters: KvList<u64>,
    hashes: KvList<EntryFields>,
    zsets: KvList<ZList>,
    strings: KvList<StrEntry>,
}

impl MetaStore {
    pub closed spec fn counters_view(&self) -> Map<Seq<char>, u64> {
        self.counters@
    }

    pub closed spec fn hashes_view(&self) -> Map<Seq<char>, FieldsSnap> {
        self.hashes@
    }

    pub closed spec fn zsets_view(&self) -> Map<Seq<char>, Seq<(Seq<char>, i64)>> {
        self.zsets@
    }

    pub closed spec fn strings_view(&self) -> Map<Seq<char>, StrSnap> {
        self.strings@
    }

    pub closed spec fn wf(&self) -> bool {
        &&& self.counters.wf()
        &&& self.hashes.wf()
        &&& self.zsets.wf()
        &&& self.strings.wf()
        &&& forall|zk: Seq<char>| #[trigger]
            self.zsets@.dom().contains(zk) ==> zdistinct(self.zsets@[zk])
    }

    /// The value of a counter; an absent counter reads as zero.
    pub open spec fn cval(&self, k: Seq<char>) -> u64 {
        if self.counters_view().dom().contains(k) {
            self.counters_view()[k]
        } else {
            0
        }
    }

    /// The members of a sorted set; an absent set reads as empty.
    pub open spec fn zlist_of(&self, zk: Seq<char>) -> Seq<(Seq<char>, i64)> {
        if self.zsets_view().dom().contains(zk) {
            self.zsets_view()[zk]
        } else {
            Seq::empty()
        }
    }

    /// Whether the marker `k` exists and has not yet expired at `now`.
    pub open spec fn str_alive(&self, k: Seq<char>, now: i64) -> bool {
        self.strings_view().dom().contains(k) && match self.strings_view()[k].expire_at {
            None => true,
            Some(t) => now < t,
        }
    }

    /// A well-formed store keeps every sorted set free of duplicates.
    pub proof fn lemma_wf_zdistinct(&self, zk: Seq<char>)
        requires
            self.wf(),
        ensures
            zdistinct(self.zlist_of(zk)),
    {
        if !self.zsets_view().dom().contains(zk) {
            assert(self.zlist_of(zk) =~= Seq::<(Seq<char>, i64)>::empty());
        }
    }

    pub fn new() -> (r: Self)
        ensures
            r.wf(),
            r.counters_view() == Map::<Seq<char>, u64>::empty(),
            r.hashes_view() == Map::<Seq<char>, FieldsSnap>::empty(),
            r.zsets_view() == Map::<Seq<char>, Seq<(Seq<char>, i64)>>::empty(),
            r.strings_view() == Map::<Seq<char>, StrSnap>::empty(),
    {
        MetaStore {
            counters: KvList::new(),
            hashes: KvList::new(),
            zsets: KvList::new(),
            strings: KvList::new(),
        }
    }

    pub fn counter_get(&self, k: &String) -> (r: u64)
        requires
            self.wf(),
        ensures
            r == self.cval(k@),
    {
        match self.counters.get(k) {
            Some(v) => *v,
            None => 0,
        }
    }

    /// Raises the counter `k` by `d` and returns the new value.
    pub fn counter_incr(&mut self, k: &String, d: u64) -> (r: u64)
        requires
            old(self).wf(),
            old(self).cval(k@) + d <= u64::MAX,
        ensures
            final(self).wf(),
            r == old(self).cval(k@) + d,
            final(self).counters_view() == old(self).counters_view().insert(k@, r),
            final(self).hashes_view() == old(self).hashes_view(),
            final(self).zsets_view() == old(self).zsets_view(),
            final(self).strings_view() == old(self).strings_view(),
    {
        let cur = self.counter_get(k);
        let next = cur + d;
        self.counters.insert(k, next);
        next
    }

    /// Lowers the counter `k` by `d` and returns the new value.
    pub fn counter_decr(&mut self, k: &String, d: u64) -> (r: u64)
        requires
            old(self).wf(),
            d <= old(self).cval(k@),
        ensures
            final(self).wf(),
            r == old(self).cval(k@) - d,
            final(self).counters_view() == old(self).counters_view().insert(k@, r),
            final(self).hashes_view() == old(self).hashes_view(),
            final(self).zsets_view() == old(self).zsets_view(),
            final(self).strings_view() == old(self).strings_view(),
    {
        let cur = self.counter_get(k);
        let next = cur - d;
        self.counters.insert(k, next);
        next
    }

    pub fn hash_get<'a>(&'a self, k: &String) -> (r: Option<&'a EntryFields>)
        requires
            self.wf(),
        ensures
            match r {
                Some(f) => self.hashes_view().dom().contains(k@) && f@ == self.hashes_view()[k@],
                None => !self.hashes_view().dom().contains(k@),
            },
    {
        self.hashes.get(k)
    }

    pub fn hash_insert(&mut self, k: &String, f: EntryFields)
        requires
            old(self).wf(),
        ensures
            final(self).wf(),
            final(self).hashes_view() == old(self).hashes_view().insert(k@, f@),
            final(self).counters_view() == old(self).counters_view(),
            final(self).zsets_view() == old(self).zsets_view(),
            final(self).strings_view() == old(self).strings_view(),
    {
        self.hashes.insert(k, f);
    }

    pub fn hash_remove(&mut self, k: &String)
        requires
            old(self).wf(),
        ensures
            final(self).wf(),
            final(self).hashes_view() == old(self).hashes_view().remove(k@),
            final(self).counters_view() == old(self).counters_view(),
            final(self).zsets_view() == old(self).zsets_view(),
            final(self).strings_view() == old(self).strings_view(),
    {
        self.hashes.remove(k);
    }

    /// Adds `member` to the sorted set `zk` with `score`, creating the set
    /// when it is absent.
    pub fn zadd(&mut self, zk: &String, member: &String, score: i64)
        requires
            old(self).wf(),
        ensures
            final(self).wf(),
            final(self).zsets_view() == old(self).zsets_view().insert(
                zk@,
                zupsert(old(self).zlist_of(zk@), member@, score),
            ),
            final(self).counters_view() == old(self).counters_view(),
            final(self).hashes_view() == old(self).hashes_view(),
            final(self).strings_view() == old(self).strings_view(),
    {
        let mut z = match self.zsets.take(zk) {
            Some(z) => z,
            None => ZList::new(),
        };
        z.upsert(member, score);
        self.zsets.insert(zk, z);
        proof {
            assert(final(self).zsets_view() =~= old(self).zsets_view().insert(
                zk@,
                zupsert(old(self).zlist_of(zk@), member@, score),
            ));
            assert forall|w: Seq<char>| #[trigger]
                final(self).zsets_view().dom().contains(w) implies zdistinct(
                final(self).zsets_view()[w],
            ) by {
                if w != zk@ {
                    assert(old(self).zsets_view().dom().contains(w));
                }
            }
        }
    }

    /// Removes and returns the member of `zk` with the least score; `None`
    /// when the set is absent or empty.
    pub fn zpopmin(&mut self, zk: &String) -> (r: Option<(String, i64)>)
        requires
            old(self).wf(),
        ensures
            final(self).wf(),
            old(self).zlist_of(zk@).len() == 0 ==> r is None && final(self).zsets_view() == old(
                self,
            ).zsets_view(),
            old(self).zlist_of(zk@).len() > 0 ==> match r {
                Some(p) => {
                    let zl = old(self).zlist_of(zk@);
                    (p.0@, p.1) == zl[zmin_idx(zl)] && final(self).zsets_view() == old(
                        self,
                    ).zsets_view().insert(zk@, zl.remove(zmin_idx(zl)))
                },
                None => false,
            },
            final(self).counters_view() == old(self).counters_view(),
            final(self).hashes_view() == old(self).hashes_view(),
            final(self).strings_view() == old(self).strings_view(),
    {
        match self.zsets.take(zk) {
            Some(mut z) => {
                let r = z.pop_min();
                self.zsets.insert(zk, z);
                proof {
                    if old(self).zlist_of(zk@).len() == 0 {
                        assert(final(self).zsets_view() =~= old(self).zsets_view());
                    }
                    assert forall|w: Seq<char>| #[trigger]
                        final(self).zsets_view().dom().contains(w) implies zdistinct(
                        final(self).zsets_view()[w],
                    ) by {
                        if w != zk@ {
                            assert(old(self).zsets_view().dom().contains(w));
                        } else {
                            let zl = old(self).zlist_of(zk@);
                            if zl.len() > 0 {
                                lemma_zmin_props(zl);
                            }
                        }
                    }
                }
                r
            },
            None => {
                proof {
                    assert(final(self).zsets_view() =~= old(self).zsets_view());
                }
                None
            },
        }
    }

    /// Binds the marker `k` to `value` with no expiry.
    pub fn str_set(&mut self, k: &String, value: &str)
        requires
            old(self).wf(),
        ensures
            final(self).wf(),
            final(self).strings_view() == old(self).strings_view().insert(
                k@,
                StrSnap { value: value@, expire_at: None },
            ),
            final(self).counters_view() == old(self).counters_view(),
            final(self).hashes_view() == old(self).hashes_view(),
            final(self).zsets_view() == old(self).zsets_view(),
    {
        self.strings.insert(k, StrEntry { value: value.to_owned(), expire_at: None });
    }

    /// Gives the marker `k` the absolute expiry time `at`. Returns whether
    /// the marker was present.
    pub fn str_expire(&mut self, k: &String, at: i64) -> (r: bool)
        requires
            old(self).wf(),
        ensures
            final(self).wf(),
            r == old(self).strings_view().dom().contains(k@),
            r ==> final(self).strings_view() == old(self).strings_view().insert(
                k@,
                StrSnap { value: old(self).strings_view()[k@].value, expire_at: Some(at) },
            ),
            !r ==> final(self).strings_view() == old(self).strings_view(),
            final(self).counters_view() == old(self).counters_view(),
            final(self).hashes_view() == old(self).hashes_view(),
            final(self).zsets_view() == old(self).zsets_view(),
    {
        match self.strings.take(k) {
            Some(e) => {
                self.strings.insert(k, StrEntry { value: e.value, expire_at: Some(at) });
                proof {
                    assert(final(self).strings_view() =~= old(self).strings_view().insert(
                        k@,
                        StrSnap {
                            value: old(self).strings_view()[k@].value,
                            expire_at: Some(at),
                        },
                    ));
                }
                true
            },
            None => false,
        }
    }

    /// Deletes the marker `k`; deleting an absent marker is a no-op.
    pub fn str_remove(&mut self, k: &String)
        requires
            old(self).wf(),
        ensures
            final(self).wf(),
            final(self).strings_view() == old(self).strings_view().remove(k@),
            final(self).counters_view() == old(self).counters_view(),
            final(self).hashes_view() == old(self).hashes_view(),
            final(self).zsets_view() == old(self).zsets_view(),
    {
        self.strings.remove(k);
    }

    /// Reads the marker `k` as of time `now`; an expired marker reads as
    /// absent.
    pub fn str_get<'a>(&'a self, k: &String, now: i64) -> (r: Option<&'a String>)
        requires
            self.wf(),
        ensures
            match r {
                Some(v) => self.str_alive(k@, now) && v@ == self.strings_view()[k@].value,
                None => !self.str_alive(k@, now),
            },
    {
        match self.strings.get(k) {
            Some(e) => {
                match e.expire_at {
                    None => Some(&e.value),
                    Some(t) => if now < t {
                        Some(&e.value)
                    } else {
                        None
                    },
                }
            },
            None => None,
        }
    }

    /// Whether the marker `k` is present and unexpired at `now`.
    pub fn str_is_alive(&self, k: &String, now: i64) -> (r: bool)
        requires
            self.wf(),
        ensures
            r == self.str_alive(k@, now),
    {
        self.str_get(k, now).is_some()
    }
}

} // verus!
