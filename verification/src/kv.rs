//! Association lists with unique string keys. One `KvList` models one table
//! of the metadata store; its abstract value is a map from key views to
//! value views.

use vstd::prelude::*;

verus! {

/// One table of the metadata store: a list of key/value pairs whose keys are
/// pairwise distinct.
pub struct KvList<V> {
    items: Vec<(String, V)>,
}

/// Whether some pair of `s` carries the key `k`.
pub open spec fn has_key<V: View>(s: Seq<(String, V)>, k: Seq<char>) -> bool {
    exists|i: int| 0 <= i < s.len() && s[i].0@ == k
}

/// The map described by an association list; a later pair wins over an
/// earlier one with the same key.
pub open spec fn assoc_map<V: View>(s: Seq<(String, V)>) -> Map<Seq<char>, V::V>
    decreases s.len(),
{
    if s.len() == 0 {
        Map::empty()
    } else {
        assoc_map(s.drop_last()).insert(s.last().0@, s.last().1@)
    }
}

proof fn lemma_assoc_dom<V: View>(s: Seq<(String, V)>)
    ensures
        forall|k: Seq<char>| #[trigger] assoc_map(s).dom().contains(k) <==> has_key(s, k),
    decreases s.len(),
{
    if s.len() > 0 {
        lemma_assoc_dom(s.drop_last());
        assert forall|k: Seq<char>| #[trigger] assoc_map(s).dom().contains(k) <==> has_key(s, k) by {
            if assoc_map(s).dom().contains(k) {
                if k == s.last().0@ {
                    assert(s[s.len() - 1].0@ == k);
                } else {
                    assert(assoc_map(s.drop_last()).dom().contains(k));
                    assert(has_key(s.drop_last(), k));
                    let i = choose|i: int| 0 <= i < s.drop_last().len() && s.drop_last()[i].0@ == k;
                    assert(s[i].0@ == k);
                }
            }
            if has_key(s, k) {
                let i = choose|i: int| 0 <= i < s.len() && s[i].0@ == k;
                if i < s.len() - 1 {
                    assert(s.drop_last()[i].0@ == k);
                    assert(has_key(s.drop_last(), k));
                    assert(assoc_map(s.drop_last()).dom().contains(k));
                }
            }
        }
    }
}

proof fn lemma_assoc_get<V: View>(s: Seq<(String, V)>, i: int)
    requires
        forall|p: int, q: int| 0 <= p < q < s.len() ==> s[p].0@ != s[q].0@,
        0 <= i < s.len(),
    ensures
        assoc_map(s).dom().contains(s[i].0@),
        assoc_map(s)[s[i].0@] == s[i].1@,
    decreases s.len(),
{
    if i == s.len() - 1 {
    } else {
        assert(s.drop_last()[i] == s[i]);
        lemma_assoc_get(s.drop_last(), i);
        assert(s[i].0@ != s.last().0@);
    }
}

proof fn lemma_assoc_update<V: View>(s: Seq<(String, V)>, i: int, p: (String, V))
    requires
        forall|a: int, b: int| 0 <= a < b < s.len() ==> s[a].0@ != s[b].0@,
        0 <= i < s.len(),
        p.0@ == s[i].0@,
    ensures
        assoc_map(s.update(i, p)) == assoc_map(s).insert(p.0@, p.1@),
    decreases s.len(),
{
    let t = s.update(i, p);
    if i == s.len() - 1 {
        assert(t.drop_last() =~= s.drop_last());
        assert(assoc_map(t) =~= assoc_map(s).insert(p.0@, p.1@));
    } else {
        assert(t.drop_last() =~= s.drop_last().update(i, p));
        assert(s.drop_last()[i] == s[i]);
        lemma_assoc_update(s.drop_last(), i, p);
        assert(t.last() == s.last());
        assert(s[i].0@ != s.last().0@);
        assert(assoc_map(t) =~= assoc_map(s).insert(p.0@, p.1@));
    }
}

proof fn lemma_assoc_remove<V: View>(s: Seq<(String, V)>, i: int)
    requires
        forall|a: int, b: int| 0 <= a < b < s.len() ==> s[a].0@ != s[b].0@,
        0 <= i < s.len(),
    ensures
        assoc_map(s.remove(i)) == assoc_map(s).remove(s[i].0@),
    decreases s.len(),
{
    if i == s.len() - 1 {
        assert(s.remove(i) =~= s.drop_last());
        lemma_assoc_dom(s.drop_last());
        assert(!has_key(s.drop_last(), s[i].0@));
        assert(assoc_map(s.remove(i)) =~= assoc_map(s).remove(s[i].0@));
    } else {
        assert(s.remove(i).drop_last() =~= s.drop_last().remove(i));
        assert(s.drop_last()[i] == s[i]);
        lemma_assoc_remove(s.drop_last(), i);
        assert(s.remove(i).last() == s.last());
        assert(s[i].0@ != s.last().0@);
        assert(assoc_map(s.remove(i)) =~= assoc_map(s).remove(s[i].0@));
    }
}

impl<V: View> View for KvList<V> {
    type V = Map<Seq<char>, V::V>;

    closed spec fn view(&self) -> Map<Seq<char>, V::V> {
        assoc_map(self.items@)
    }
}

impl<V: View> KvList<V> {
    /// The keys of the list are pairwise distinct.
    pub closed spec fn wf(&self) -> bool {
        forall|i: int, j: int| 0 <= i < j < self.items@.len() ==> self.items@[i].0@
            != self.items@[j].0@
    }

    pub fn new() -> (r: Self)
        ensures
            r.wf(),
            r@ == Map::<Seq<char>, V::V>::empty(),
    {
        let r = KvList { items: Vec::new() };
        proof {
            assert(r@ =~= Map::<Seq<char>, V::V>::empty());
        }
        r
    }

    fn position(&self, k: &String) -> (r: Option<usize>)
        ensures
            match r {
                Some(i) => i < self.items@.len() && self.items@[i as int].0@ == k@,
                None => !has_key(self.items@, k@),
            },
    {
        let n = self.items.len();
        let mut i: usize = 0;
        while i < n
            invariant
                i <= n,
                n == self.items@.len(),
                forall|j: int| 0 <= j < i ==> self.items@[j].0@ != k@,
            decreases n - i,
        {
            if self.items[i].0 == *k {
                return Some(i);
            }
            i = i + 1;
        }
        None
    }

    pub fn get<'a>(&'a self, k: &String) -> (r: Option<&'a V>)
        requires
            self.wf(),
        ensures
            match r {
                Some(v) => self@.dom().contains(k@) && v@ == self@[k@],
                None => !self@.dom().contains(k@),
            },
    {
        match self.position(k) {
            Some(i) => {
                proof {
                    lemma_assoc_get(self.items@, i as int);
                }
                Some(&self.items[i].1)
            },
            None => {
                proof {
                    lemma_assoc_dom(self.items@);
                }
                None
            },
        }
    }

    /// Binds `k` to `v`, replacing any previous binding.
    pub fn insert(&mut self, k: &String, v: V)
        requires
            old(self).wf(),
        ensures
            final(self).wf(),
            final(self)@ == old(self)@.insert(k@, v@),
    {
        let pair = (k.clone(), v);
        match self.position(k) {
            Some(i) => {
                proof {
                    lemma_assoc_update(self.items@, i as int, pair);
                }
                self.items[i] = pair;
            },
            None => {
                proof {
                    let s = self.items@;
                    let t = s.push(pair);
                    assert(t.drop_last() =~= s);
                    assert(assoc_map(t) =~= assoc_map(s).insert(k@, v@));
                }
                self.items.push(pair);
            },
        }
    }

    /// Removes the binding of `k` and hands its value back.
    pub fn take(&mut self, k: &String) -> (r: Option<V>)
        requires
            old(self).wf(),
        ensures
            final(self).wf(),
            final(self)@ == old(self)@.remove(k@),
            match r {
                Some(v) => old(self)@.dom().contains(k@) && v@ == old(self)@[k@],
                None => !old(self)@.dom().contains(k@) && final(self)@ == old(self)@,
            },
    {
        match self.position(k) {
            Some(i) => {
                proof {
                    lemma_assoc_get(self.items@, i as int);
                    lemma_assoc_remove(self.items@, i as int);
                    assert(forall|a: int, b: int|
                        0 <= a < b < self.items@.remove(i as int).len()
                            ==> self.items@.remove(i as int)[a].0@ != self.items@.remove(
                            i as int,
                        )[b].0@);
                }
                let pair = self.items.remove(i);
                Some(pair.1)
            },
            None => {
                proof {
                    lemma_assoc_dom(self.items@);
                    assert(self@ =~= self@.remove(k@));
                }
                None
            },
        }
    }

    /// The keys of the list, each exactly once.
    pub fn keys(&self) -> (r: Vec<String>)
        requires
            self.wf(),
        ensures
            forall|i: int| 0 <= i < r@.len() ==> self@.dom().contains(#[trigger] r@[i]@),
            forall|k: Seq<char>| #[trigger] self@.dom().contains(k) ==> exists|i: int|
                0 <= i < r@.len() && r@[i]@ == k,
            forall|i: int, j: int| 0 <= i < j < r@.len() ==> r@[i]@ != r@[j]@,
    {
        proof {
            lemma_assoc_dom(self.items@);
        }
        let n = self.items.len();
        let mut r: Vec<String> = Vec::new();
        let mut i: usize = 0;
        while i < n
            invariant
                i <= n,
                n == self.items@.len(),
                r@.len() == i,
                forall|j: int| 0 <= j < i ==> r@[j]@ == self.items@[j].0@,
            decreases n - i,
        {
            r.push(self.items[i].0.clone());
            i = i + 1;
        }
        proof {
            assert forall|k: Seq<char>| #[trigger] self@.dom().contains(k) implies exists|i: int|
                0 <= i < r@.len() && r@[i]@ == k by {
                assert(has_key(self.items@, k));
                let i = choose|i: int| 0 <= i < self.items@.len() && self.items@[i].0@ == k;
                assert(r@[i]@ == k);
            }
            assert forall|i: int| 0 <= i < r@.len() implies self@.dom().contains(
                #[trigger] r@[i]@,
            ) by {
                assert(self.items@[i].0@ == r@[i]@);
                assert(has_key(self.items@, r@[i]@));
            }
        }
        r
    }

    /// Removes the binding of `k`, if any.
    pub fn remove(&mut self, k: &String)
        requires
            old(self).wf(),
        ensures
            final(self).wf(),
            final(self)@ == old(self)@.remove(k@),
    {
        let _ = self.take(k);
    }
}

} // verus!
