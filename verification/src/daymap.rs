//! A map keyed by day, kept as a vector sorted by day.
use vstd::prelude::*;

use crate::gitcache::JulianDay;

verus! {

/// The keys of `s` increase strictly.
pub open spec fn strictly_sorted<V>(s: Seq<(JulianDay, V)>) -> bool {
    forall|i: int, j: int| 0 <= i < j < s.len() ==> s[i].0 < s[j].0
}

/// The map that a vector of (day, value) pairs with distinct days stands for.
pub open spec fn map_of<V>(s: Seq<(JulianDay, V)>) -> Map<JulianDay, V> {
    Map::new(
        |k: JulianDay| exists|i: int| 0 <= i < s.len() && s[i].0 == k,
        |k: JulianDay| s[choose|i: int| 0 <= i < s.len() && s[i].0 == k].1,
    )
}

/// Reading `map_of` at a position's key gives that position's value.
pub proof fn lemma_map_of_at<V>(s: Seq<(JulianDay, V)>, i: int)
    requires
        strictly_sorted(s),
        0 <= i < s.len(),
    ensures
        map_of(s).contains_key(s[i].0),
        map_of(s)[s[i].0] == s[i].1,
{
    let k = s[i].0;
    assert(exists|j: int| 0 <= j < s.len() && s[j].0 == k);
    let j = choose|j: int| 0 <= j < s.len() && s[j].0 == k;
    if j < i {
        assert(s[j].0 < s[i].0);
    } else if i < j {
        assert(s[i].0 < s[j].0);
    }
}

/// The keys of `map_of` are exactly the days in the vector.
pub proof fn lemma_map_of_dom<V>(s: Seq<(JulianDay, V)>, k: JulianDay)
    ensures
        map_of(s).contains_key(k) <==> exists|i: int| 0 <= i < s.len() && s[i].0 == k,
{
}

proof fn lemma_map_of_ext<V>(s: Seq<(JulianDay, V)>, t: Seq<(JulianDay, V)>, m: Map<JulianDay, V>)
    requires
        strictly_sorted(s),
        forall|k: JulianDay| m.contains_key(k) <==> exists|i: int| 0 <= i < s.len() && s[i].0 == k,
        forall|i: int| 0 <= i < s.len() ==> m[s[i].0] == s[i].1,
    ensures
        map_of(s) == m,
{
    assert forall|k: JulianDay| #[trigger] map_of(s).contains_key(k) implies map_of(s)[k] == m[k] by {
        let i = choose|i: int| 0 <= i < s.len() && s[i].0 == k;
        lemma_map_of_at(s, i);
    }
    assert(map_of(s) =~= m);
}

/// A map from days to values, iterated in increasing day order.
pub struct DayMap<V> {
    entries: Vec<(JulianDay, V)>,
}

impl<V> DayMap<V> {
    /// The pairs in increasing day order.
    pub closed spec fn pairs(&self) -> Seq<(JulianDay, V)> {
        self.entries@
    }

    pub closed spec fn wf(&self) -> bool {
        strictly_sorted(self.entries@)
    }

    pub open spec fn as_map(&self) -> Map<JulianDay, V> {
        map_of(self.pairs())
    }

    pub fn new() -> (r: Self)
        ensures
            r.wf(),
            r.pairs() == Seq::<(JulianDay, V)>::empty(),
            r.as_map() == Map::<JulianDay, V>::empty(),
    {
        let r = DayMap { entries: Vec::new() };
        assert(map_of(r.entries@) =~= Map::<JulianDay, V>::empty());
        r
    }

    pub fn len(&self) -> (n: usize)
        ensures
            n == self.pairs().len(),
    {
        self.entries.len()
    }

    /// Where `k` is, or where it would go.
    fn search(&self, k: JulianDay) -> (r: (bool, usize))
        requires
            self.wf(),
        ensures
            r.1 <= self.pairs().len(),
            r.0 ==> r.1 < self.pairs().len() && self.pairs()[r.1 as int].0 == k,
            !r.0 ==> forall|i: int| 0 <= i < r.1 ==> self.pairs()[i].0 < k,
            !r.0 ==> forall|i: int| r.1 <= i < self.pairs().len() ==> self.pairs()[i].0 > k,
    {
        let mut i: usize = 0;
        while i < self.entries.len()
            invariant
                self.wf(),
                i <= self.entries@.len(),
                forall|j: int| 0 <= j < i ==> self.entries@[j].0 < k,
            decreases self.entries.len() - i,
        {
            if self.entries[i].0 == k {
                return (true, i);
            }
            if self.entries[i].0 > k {
                return (false, i);
            }
            i += 1;
        }
        (false, i)
    }

    /// Sets the value of day `k`, replacing any value it had.
    pub fn insert(&mut self, k: JulianDay, v: V)
        requires
            old(self).wf(),
        ensures
            final(self).wf(),
            final(self).as_map() == old(self).as_map().insert(k, v),
    {
        let ghost s = self.entries@;
        let (found, i) = self.search(k);
        if found {
            self.entries.set(i, (k, v));
            let ghost t = self.entries@;
            proof {
                assert(t =~= s.update(i as int, (k, v)));
                assert(strictly_sorted(t)) by {
                    assert forall|a: int, b: int| 0 <= a < b < t.len() implies t[a].0 < t[b].0 by {
                        assert(s[a].0 < s[b].0);
                    }
                }
                assert forall|j: int| 0 <= j < s.len() implies map_of(s)[s[j].0] == s[j].1 by {
                    lemma_map_of_at(s, j);
                }
                assert forall|kk: JulianDay| map_of(s).insert(k, v).contains_key(kk) <==> exists|
                    j: int,
                | 0 <= j < t.len() && t[j].0 == kk by {
                    if map_of(s).contains_key(kk) {
                        let j = choose|j: int| 0 <= j < s.len() && s[j].0 == kk;
                        assert(t[j].0 == kk);
                    }
                    if kk == k {
                        assert(t[i as int].0 == kk);
                    }
                    if exists|j: int| 0 <= j < t.len() && t[j].0 == kk {
                        let j = choose|j: int| 0 <= j < t.len() && t[j].0 == kk;
                        assert(s[j].0 == kk);
                    }
                }
                assert forall|j: int| 0 <= j < t.len() implies map_of(s).insert(k, v)[t[j].0]
                    == t[j].1 by {
                    if j != i {
                        assert(t[j] == s[j]);
                        assert(s[j].0 != k) by {
                            if j < i {
                                assert(s[j].0 < s[i as int].0);
                            } else {
                                assert(s[i as int].0 < s[j].0);
                            }
                        }
                    }
                }
                lemma_map_of_ext(t, t, map_of(s).insert(k, v));
            }
        } else {
            self.entries.insert(i, (k, v));
            let ghost t = self.entries@;
            proof {
                assert(t =~= s.insert(i as int, (k, v)));
                assert(strictly_sorted(t)) by {
                    assert forall|a: int, b: int| 0 <= a < b < t.len() implies t[a].0 < t[b].0 by {
                        if b < i {
                            assert(s[a].0 < s[b].0);
                        } else if a > i {
                            assert(s[a - 1].0 < s[b - 1].0);
                        } else if a == i {
                            assert(s[b - 1].0 > k);
                        } else {
                            assert(s[a].0 < k);
                        }
                    }
                }
                assert forall|j: int| 0 <= j < s.len() implies map_of(s)[s[j].0] == s[j].1 by {
                    lemma_map_of_at(s, j);
                }
                assert forall|kk: JulianDay| map_of(s).insert(k, v).contains_key(kk) <==> exists|
                    j: int,
                | 0 <= j < t.len() && t[j].0 == kk by {
                    if map_of(s).contains_key(kk) && kk != k {
                        let j = choose|j: int| 0 <= j < s.len() && s[j].0 == kk;
                        if j < i {
                            assert(t[j].0 == kk);
                        } else {
                            assert(t[j + 1].0 == kk);
                        }
                    }
                    if kk == k {
                        assert(t[i as int].0 == kk);
                    }
                    if exists|j: int| 0 <= j < t.len() && t[j].0 == kk {
                        let j = choose|j: int| 0 <= j < t.len() && t[j].0 == kk;
                        if j < i {
                            assert(s[j].0 == kk);
                        } else if j > i {
                            assert(s[j - 1].0 == kk);
                        }
                    }
                }
                assert forall|j: int| 0 <= j < t.len() implies map_of(s).insert(k, v)[t[j].0]
                    == t[j].1 by {
                    if j < i {
                        assert(t[j] == s[j]);
                    } else if j > i {
                        assert(t[j] == s[j - 1]);
                    }
                }
                lemma_map_of_ext(t, t, map_of(s).insert(k, v));
            }
        }
    }

    /// Takes out the value of day `k`, if it has one.
    pub fn remove(&mut self, k: JulianDay) -> (r: Option<V>)
        requires
            old(self).wf(),
        ensures
            final(self).wf(),
            final(self).as_map() == old(self).as_map().remove(k),
            r == (if old(self).as_map().contains_key(k) {
                Some(old(self).as_map()[k])
            } else {
                None
            }),
    {
        let ghost s = self.entries@;
        let (found, i) = self.search(k);
        if !found {
            proof {
                assert forall|j: int| 0 <= j < s.len() implies s[j].0 != k by {
                    if j < i {
                    } else {
                    }
                }
                assert(map_of(s).remove(k) =~= map_of(s));
            }
            return None;
        }
        let (_, v) = self.entries.remove(i);
        let ghost t = self.entries@;
        proof {
            lemma_map_of_at(s, i as int);
            assert(t =~= s.remove(i as int));
            assert(strictly_sorted(t)) by {
                assert forall|a: int, b: int| 0 <= a < b < t.len() implies t[a].0 < t[b].0 by {
                    if b < i {
                        assert(s[a].0 < s[b].0);
                    } else if a >= i {
                        assert(s[a + 1].0 < s[b + 1].0);
                    } else {
                        assert(s[a].0 < s[b + 1].0);
                    }
                }
            }
            assert forall|j: int| 0 <= j < s.len() implies map_of(s)[s[j].0] == s[j].1 by {
                lemma_map_of_at(s, j);
            }
            assert forall|kk: JulianDay| map_of(s).remove(k).contains_key(kk) <==> exists|j: int|
                0 <= j < t.len() && t[j].0 == kk by {
                if map_of(s).remove(k).contains_key(kk) {
                    let j = choose|j: int| 0 <= j < s.len() && s[j].0 == kk;
                    if j < i {
                        assert(t[j].0 == kk);
                    } else if j > i {
                        assert(t[j - 1].0 == kk);
                    }
                }
                if exists|j: int| 0 <= j < t.len() && t[j].0 == kk {
                    let j = choose|j: int| 0 <= j < t.len() && t[j].0 == kk;
                    if j < i {
                        assert(s[j].0 == kk);
                        assert(s[j].0 < s[i as int].0);
                    } else {
                        assert(s[j + 1].0 == kk);
                        assert(s[i as int].0 < s[j + 1].0);
                    }
                }
            }
            assert forall|j: int| 0 <= j < t.len() implies map_of(s).remove(k)[t[j].0] == t[j].1 by {
                if j < i {
                    assert(t[j] == s[j]);
                    assert(s[j].0 < s[i as int].0);
                } else {
                    assert(t[j] == s[j + 1]);
                    assert(s[i as int].0 < s[j + 1].0);
                }
            }
            lemma_map_of_ext(t, t, map_of(s).remove(k));
        }
        Some(v)
    }

    /// The pairs in increasing day order.
    pub fn into_pairs(self) -> (r: Vec<(JulianDay, V)>)
        requires
            self.wf(),
        ensures
            r@ == self.pairs(),
            strictly_sorted(r@),
    {
        self.entries
    }
}

} // verus!
