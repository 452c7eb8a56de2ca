//! A map keyed by name, kept as a vector of distinct names.
use vstd::prelude::*;

use crate::text::str_eq;

verus! {

/// No name occurs twice.
pub open spec fn names_distinct<V>(s: Seq<(String, V)>) -> bool {
    forall|i: int, j: int| 0 <= i < s.len() && 0 <= j < s.len() && i != j ==> s[i].0@ != s[j].0@
}

/// Some position holds the name `k`.
pub open spec fn holds_name<V>(s: Seq<(String, V)>, k: Seq<char>) -> bool {
    exists|i: int| 0 <= i < s.len() && s[i].0@ == k
}

/// The map that a vector of (name, value) pairs with distinct names stands for.
pub open spec fn names_map<V>(s: Seq<(String, V)>) -> Map<Seq<char>, V> {
    Map::new(
        |k: Seq<char>| holds_name(s, k),
        |k: Seq<char>| s[choose|i: int| 0 <= i < s.len() && s[i].0@ == k].1,
    )
}

proof fn lemma_names_map_at<V>(s: Seq<(String, V)>, i: int)
    requires
        names_distinct(s),
        0 <= i < s.len(),
    ensures
        names_map(s).contains_key(s[i].0@),
        names_map(s)[s[i].0@] == s[i].1,
{
    let k = s[i].0@;
    assert(holds_name(s, k));
    let j = choose|j: int| 0 <= j < s.len() && s[j].0@ == k;
    assert(j == i);
}

proof fn lemma_names_map_ext<V>(s: Seq<(String, V)>, m: Map<Seq<char>, V>)
    requires
        names_distinct(s),
        forall|k: Seq<char>| m.contains_key(k) <==> holds_name(s, k),
        forall|i: int| 0 <= i < s.len() ==> m[s[i].0@] == s[i].1,
    ensures
        names_map(s) == m,
{
    assert forall|k: Seq<char>| #[trigger] names_map(s).contains_key(k) implies names_map(s)[k]
        == m[k] by {
        let i = choose|i: int| 0 <= i < s.len() && s[i].0@ == k;
        lemma_names_map_at(s, i);
    }
    assert(names_map(s) =~= m);
}

/// A map from names to values.
pub struct NameMap<V> {
    entries: Vec<(String, V)>,
}

impl<V> NameMap<V> {
    pub closed spec fn pairs(&self) -> Seq<(String, V)> {
        self.entries@
    }

    pub closed spec fn wf(&self) -> bool {
        names_distinct(self.entries@)
    }

    pub open spec fn as_map(&self) -> Map<Seq<char>, V> {
        names_map(self.pairs())
    }

    pub fn new() -> (r: Self)
        ensures
            r.wf(),
            r.as_map() == Map::<Seq<char>, V>::empty(),
    {
        let r = NameMap { entries: Vec::new() };
        assert(names_map(r.entries@) =~= Map::<Seq<char>, V>::empty());
        r
    }

    /// The number of names held.
    pub fn len(&self) -> (n: usize)
        requires
            self.wf(),
        ensures
            n == self.as_map().len(),
            n == self.as_map().dom().len(),
    {
        proof {
            self.lemma_len();
        }
        self.entries.len()
    }

    proof fn lemma_len(&self)
        requires
            self.wf(),
        ensures
            self.as_map().dom().finite(),
            self.as_map().dom().len() == self.pairs().len(),
        decreases self.pairs().len(),
    {
        let s = self.entries@;
        let keys = Seq::new(s.len(), |i: int| s[i].0@);
        assert forall|i: int, j: int| 0 <= i < keys.len() && 0 <= j < keys.len() && i != j implies keys[i]
            != keys[j] by {
            assert(keys[i] == s[i].0@ && keys[j] == s[j].0@);
        }
        assert(keys.no_duplicates());
        assert forall|k: Seq<char>| keys.to_set().contains(k) <==> holds_name(s, k) by {
            if holds_name(s, k) {
                let i = choose|i: int| 0 <= i < s.len() && s[i].0@ == k;
                assert(keys[i] == k);
            }
        }
        assert(self.as_map().dom() =~= keys.to_set());
        keys.unique_seq_to_set();
    }

    fn find(&self, key: &str) -> (r: Option<usize>)
        requires
            self.wf(),
        ensures
            match r {
                Some(i) => i < self.pairs().len() && self.pairs()[i as int].0@ == key@,
                None => !holds_name(self.pairs(), key@),
            },
    {
        let mut i: usize = 0;
        while i < self.entries.len()
            invariant
                i <= self.entries@.len(),
                forall|j: int| 0 <= j < i ==> self.entries@[j].0@ != key@,
            decreases self.entries.len() - i,
        {
            if str_eq(self.entries[i].0.as_str(), key) {
                return Some(i);
            }
            i += 1;
        }
        None
    }

    /// The value held under `key`.
    pub fn get(&self, key: &str) -> (r: Option<&V>)
        requires
            self.wf(),
        ensures
            match r {
                Some(v) => self.as_map().contains_key(key@) && *v == self.as_map()[key@],
                None => !self.as_map().contains_key(key@),
            },
    {
        match self.find(key) {
            Some(i) => {
                proof {
                    lemma_names_map_at(self.entries@, i as int);
                }
                Some(&self.entries[i].1)
            },
            None => None,
        }
    }

    /// Sets the value of `key`, replacing any value it had.
    pub fn insert(&mut self, key: String, v: V)
        requires
            old(self).wf(),
        ensures
            final(self).wf(),
            final(self).as_map() == old(self).as_map().insert(key@, v),
    {
        let ghost s = self.entries@;
        let ghost k = key@;
        match self.find(key.as_str()) {
            Some(i) => {
                self.entries.set(i, (key, v));
                let ghost t = self.entries@;
                proof {
                    assert(t =~= s.update(i as int, (t[i as int].0, v)));
                    assert forall|a: int| 0 <= a < s.len() implies names_map(s)[s[a].0@]
                        == s[a].1 by {
                        lemma_names_map_at(s, a);
                    }
                    assert forall|kk: Seq<char>| names_map(s).insert(k, v).contains_key(kk)
                        <==> holds_name(t, kk) by {
                        if holds_name(s, kk) {
                            let j = choose|j: int| 0 <= j < s.len() && s[j].0@ == kk;
                            if j != i {
                                assert(t[j].0@ == kk);
                            } else {
                                assert(t[i as int].0@ == kk);
                            }
                        }
                        if kk == k {
                            assert(t[i as int].0@ == kk);
                        }
                        if holds_name(t, kk) {
                            let j = choose|j: int| 0 <= j < t.len() && t[j].0@ == kk;
                            assert(s[j].0@ == kk);
                        }
                    }
                    assert forall|j: int| 0 <= j < t.len() implies names_map(s).insert(k, v)[t[j].0@]
                        == t[j].1 by {
                        if j != i {
                            assert(s[j].0@ != k);
                        }
                    }
                    lemma_names_map_ext(t, names_map(s).insert(k, v));
                }
            },
            None => {
                self.entries.push((key, v));
                let ghost t = self.entries@;
                proof {
                    assert(t =~= s.push((t[s.len() as int].0, v)));
                    assert forall|a: int| 0 <= a < s.len() implies names_map(s)[s[a].0@]
                        == s[a].1 by {
                        lemma_names_map_at(s, a);
                    }
                    assert forall|kk: Seq<char>| names_map(s).insert(k, v).contains_key(kk)
                        <==> holds_name(t, kk) by {
                        if holds_name(s, kk) {
                            let j = choose|j: int| 0 <= j < s.len() && s[j].0@ == kk;
                            assert(t[j].0@ == kk);
                        }
                        if kk == k {
                            assert(t[s.len() as int].0@ == kk);
                        }
                        if holds_name(t, kk) {
                            let j = choose|j: int| 0 <= j < t.len() && t[j].0@ == kk;
                            if j < s.len() {
                                assert(s[j].0@ == kk);
                            }
                        }
                    }
                    assert forall|j: int| 0 <= j < t.len() implies names_map(s).insert(k, v)[t[j].0@]
                        == t[j].1 by {
                        if j < s.len() {
                            assert(s[j].0@ != k);
                        }
                    }
                    lemma_names_map_ext(t, names_map(s).insert(k, v));
                }
            },
        }
    }

    /// The (name, value) pairs, each name once.
    pub fn into_pairs(self) -> (r: Vec<(String, V)>)
        requires
            self.wf(),
        ensures
            names_distinct(r@),
            names_map(r@) == self.as_map(),
    {
        self.entries
    }
}

} // verus!
