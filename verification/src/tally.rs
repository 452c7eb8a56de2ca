//! Counting: sums over lists of keys and how often a key occurs.
use vstd::prelude::*;

verus! {

/// `f` summed over `ds`.
pub open spec fn sum_over<K>(ds: Seq<K>, f: spec_fn(K) -> nat) -> nat
    decreases ds.len(),
{
    if ds.len() == 0 {
        0
    } else {
        sum_over(ds.drop_last(), f) + f(ds.last())
    }
}

/// Taking one key out of the list takes its value out of the sum.
pub proof fn lemma_sum_over_remove<K>(ds: Seq<K>, f: spec_fn(K) -> nat, i: int)
    requires
        0 <= i < ds.len(),
    ensures
        sum_over(ds, f) == sum_over(ds.remove(i), f) + f(ds[i]),
    decreases ds.len(),
{
    if i < ds.len() - 1 {
        lemma_sum_over_remove(ds.drop_last(), f, i);
        assert(ds.remove(i).drop_last() =~= ds.drop_last().remove(i));
        assert(ds.remove(i).last() == ds.last());
    } else {
        assert(ds.remove(i) =~= ds.drop_last());
    }
}

/// Functions that agree on the keys have the same sum.
pub proof fn lemma_sum_over_same<K>(ds: Seq<K>, f: spec_fn(K) -> nat, g: spec_fn(K) -> nat)
    requires
        forall|k: int| 0 <= k < ds.len() ==> f(ds[k]) == g(ds[k]),
    ensures
        sum_over(ds, f) == sum_over(ds, g),
    decreases ds.len(),
{
    if ds.len() > 0 {
        assert forall|k: int| 0 <= k < ds.drop_last().len() implies f(ds.drop_last()[k]) == g(
            ds.drop_last()[k],
        ) by {
            assert(ds.drop_last()[k] == ds[k]);
        }
        lemma_sum_over_same(ds.drop_last(), f, g);
        assert(f(ds[ds.len() - 1]) == g(ds[ds.len() - 1]));
    }
}

/// How often `d` occurs in `xs`.
pub open spec fn occurrences<K>(xs: Seq<K>, d: K) -> nat
    decreases xs.len(),
{
    if xs.len() == 0 {
        0
    } else {
        occurrences(xs.drop_last(), d) + if xs.last() == d {
            1nat
        } else {
            0nat
        }
    }
}

/// The occurrences of each key, summed over distinct keys `ds` that are
/// exactly the keys that occur, are the length of the list.
pub proof fn lemma_occurrences_sum<K>(xs: Seq<K>, ds: Seq<K>)
    requires
        ds.no_duplicates(),
        forall|d: K| ds.contains(d) <==> occurrences(xs, d) > 0,
    ensures
        sum_over(ds, |d: K| occurrences(xs, d)) == xs.len(),
    decreases xs.len(),
{
    let f = |d: K| occurrences(xs, d);
    if xs.len() == 0 {
        if ds.len() > 0 {
            assert(ds.contains(ds[0]));
        }
    } else {
        let prev = xs.drop_last();
        let e = xs.last();
        let g = |d: K| occurrences(prev, d);
        assert(occurrences(xs, e) > 0);
        assert(ds.contains(e));
        let i = choose|i: int| 0 <= i < ds.len() && ds[i] == e;
        let rest = ds.remove(i);
        lemma_sum_over_remove(ds, f, i);
        assert forall|k: int| 0 <= k < rest.len() implies f(rest[k]) == g(rest[k]) by {
            if k < i {
                assert(rest[k] == ds[k]);
                assert(ds[k] != ds[i]);
            } else {
                assert(rest[k] == ds[k + 1]);
                assert(ds[k + 1] != ds[i]);
            }
        }
        lemma_sum_over_same(rest, f, g);
        assert(rest.no_duplicates()) by {
            assert forall|a: int, b: int| 0 <= a < rest.len() && 0 <= b < rest.len() && a != b implies rest[a]
                != rest[b] by {
                let a2 = if a < i {
                    a
                } else {
                    a + 1
                };
                let b2 = if b < i {
                    b
                } else {
                    b + 1
                };
                assert(rest[a] == ds[a2] && rest[b] == ds[b2]);
            }
        }
        assert forall|d: K| rest.contains(d) <==> (ds.contains(d) && d != e) by {
            if rest.contains(d) {
                let k = choose|k: int| 0 <= k < rest.len() && rest[k] == d;
                if k < i {
                    assert(ds[k] == d);
                } else {
                    assert(ds[k + 1] == d);
                }
            }
            if ds.contains(d) && d != e {
                let k = choose|k: int| 0 <= k < ds.len() && ds[k] == d;
                if k < i {
                    assert(rest[k] == d);
                } else {
                    assert(rest[k - 1] == d);
                }
            }
        }
        if occurrences(prev, e) > 0 {
            lemma_sum_over_remove(ds, g, i);
            assert forall|d: K| ds.contains(d) <==> occurrences(prev, d) > 0 by {}
            lemma_occurrences_sum(prev, ds);
        } else {
            assert forall|d: K| rest.contains(d) <==> occurrences(prev, d) > 0 by {}
            lemma_occurrences_sum(prev, rest);
        }
    }
}

} // verus!
