//! The decisions of collecting one software and of grouping the results
//! by catalog.
use vstd::prelude::*;

use crate::dates::{MAX_DAY, MIN_DAY};
use crate::forge::gitea::{
    lemma_text_lt_irreflexive, lemma_text_lt_total, lemma_text_lt_transitive, text_ge, text_lt,
};
use crate::forge::{ForgeKind, ForgeMetrics, ForgeResult};
use crate::gitcache::JulianDay;
use crate::metrics::SoftwareMetrics;
use crate::namemap::NameMap;
use crate::runner::{CacheStats, Summary};
use crate::tally::{lemma_occurrences_sum, occurrences, sum_over};
use crate::text::{extend_str, str_eq, string_of};

verus! {

// ---------------------------------------------------------------------------
// Collecting one software.
// ---------------------------------------------------------------------------

/// Where the forge metrics of a repository come from.
#[derive(Clone, Copy, Debug, PartialEq, Eq)]
pub enum ForgeSource {
    /// The GitHub GraphQL batch run before the collection.
    Batch,
    /// A REST request to the host, which speaks this API.
    Rest(ForgeKind),
    /// The host speaks no API the collector knows.
    NoForge,
}

/// The source of the forge metrics of a repository on `host`.
pub fn forge_source(kinds: &NameMap<ForgeKind>, host: &str) -> (r: ForgeSource)
    requires
        kinds.wf(),
    ensures
        r == if !kinds.as_map().contains_key(host@) {
            ForgeSource::NoForge
        } else if kinds.as_map()[host@] == ForgeKind::GitHub {
            ForgeSource::Batch
        } else {
            ForgeSource::Rest(kinds.as_map()[host@])
        },
{
    match kinds.get(host) {
        Some(ForgeKind::GitHub) => ForgeSource::Batch,
        Some(k) => ForgeSource::Rest(*k),
        None => ForgeSource::NoForge,
    }
}

/// The forge result of a repository read from the batch: measured when
/// the batch holds it, unsupported otherwise.
pub fn batch_result(found: Option<&ForgeMetrics>) -> (r: ForgeResult)
    ensures
        r == match found {
            Some(m) => ForgeResult::Measured(*m),
            None => ForgeResult::Unsupported,
        },
{
    match found {
        Some(m) => ForgeResult::Measured(*m),
        None => ForgeResult::Unsupported,
    }
}

/// The forge result of a REST request: measured when it succeeded,
/// failed otherwise.
pub fn rest_result(answer: Option<ForgeMetrics>) -> (r: ForgeResult)
    ensures
        r == match answer {
            Some(m) => ForgeResult::Measured(m),
            None => ForgeResult::Failed,
        },
{
    match answer {
        Some(m) => ForgeResult::Measured(m),
        None => ForgeResult::Failed,
    }
}

/// The API root of a forge host.
pub fn forge_base(kind: ForgeKind, host: &str) -> (r: String)
    ensures
        r@ == match kind {
            ForgeKind::GitHub => "https://api.github.com"@,
            _ => "https://"@ + host@,
        },
{
    let mut v: Vec<char> = Vec::new();
    match kind {
        ForgeKind::GitHub => extend_str(&mut v, "https://api.github.com"),
        _ => {
            extend_str(&mut v, "https://");
            extend_str(&mut v, host);
        },
    }
    string_of(v.as_slice())
}

/// The first day of the recent window ending `today`.
pub fn recent_cutoff(today: JulianDay, recent_days: u32) -> (r: JulianDay)
    requires
        MIN_DAY <= today - recent_days,
        today <= MAX_DAY,
    ensures
        r == today - recent_days,
{
    today - recent_days as i32
}

// ---------------------------------------------------------------------------
// Grouping by catalog.
// ---------------------------------------------------------------------------

/// An optional string as text.
pub open spec fn opt_text(o: Option<String>) -> Option<Seq<char>> {
    match o {
        Some(s) => Some(s@),
        None => None,
    }
}

/// The catalog a software is counted in: the one the run is limited to,
/// or else its own.
pub open spec fn group_key(own: Option<String>, only: Option<Seq<char>>) -> Option<Seq<char>> {
    match only {
        Some(id) => Some(id),
        None => opt_text(own),
    }
}

/// The order of catalog keys: no catalog first, then by id.
pub open spec fn key_lt(a: Option<Seq<char>>, b: Option<Seq<char>>) -> bool {
    match (a, b) {
        (None, Some(_)) => true,
        (Some(x), Some(y)) => text_lt(x, y),
        _ => false,
    }
}

/// The metrics of the software counted in catalog `k`, in order.
pub open spec fn group_members(
    items: Seq<(Option<String>, SoftwareMetrics)>,
    only: Option<Seq<char>>,
    k: Option<Seq<char>>,
) -> Seq<SoftwareMetrics>
    decreases items.len(),
{
    if items.len() == 0 {
        Seq::empty()
    } else {
        let prev = group_members(items.drop_last(), only, k);
        if group_key(items.last().0, only) == k {
            prev.push(items.last().1)
        } else {
            prev
        }
    }
}

/// The groups of the first items: keys in increasing order, each group
/// with the members of its key, each item's key present.
pub open spec fn grouped(
    gs: Seq<(Option<String>, Vec<SoftwareMetrics>)>,
    items: Seq<(Option<String>, SoftwareMetrics)>,
    only: Option<Seq<char>>,
) -> bool {
    &&& forall|i: int, j: int|
        0 <= i < j < gs.len() ==> key_lt(opt_text(#[trigger] gs[i].0), opt_text(#[trigger] gs[j].0))
    &&& forall|i: int|
        0 <= i < gs.len() ==> (#[trigger] gs[i]).1@ == group_members(items, only, opt_text(gs[i].0))
            && gs[i].1@.len() > 0
    &&& forall|j: int|
        0 <= j < items.len() ==> exists|i: int|
            0 <= i < gs.len() && opt_text(#[trigger] gs[i].0) == group_key(
                #[trigger] items[j].0,
                only,
            )
}

proof fn lemma_key_lt_facts(a: Option<Seq<char>>, b: Option<Seq<char>>, c: Option<Seq<char>>)
    ensures
        !key_lt(a, a),
        key_lt(a, b) && key_lt(b, c) ==> key_lt(a, c),
        a != b ==> key_lt(a, b) || key_lt(b, a),
{
    match a {
        Some(x) => lemma_text_lt_irreflexive(x),
        None => {},
    }
    match (a, b, c) {
        (Some(x), Some(y), Some(z)) => {
            if text_lt(x, y) && text_lt(y, z) {
                lemma_text_lt_transitive(x, y, z);
            }
        },
        _ => {},
    }
    match (a, b) {
        (Some(x), Some(y)) => {
            if x != y {
                lemma_text_lt_total(x, y);
            }
        },
        _ => {},
    }
}

fn key_less(a: &Option<String>, b: &Option<String>) -> (r: bool)
    ensures
        r == key_lt(opt_text(*a), opt_text(*b)),
{
    match (a, b) {
        (None, Some(_)) => true,
        (Some(x), Some(y)) => !text_ge(x.as_str(), y.as_str()),
        _ => false,
    }
}

fn key_equal(a: &Option<String>, b: &Option<String>) -> (r: bool)
    ensures
        r == (opt_text(*a) == opt_text(*b)),
{
    match (a, b) {
        (None, None) => true,
        (Some(x), Some(y)) => str_eq(x.as_str(), y.as_str()),
        _ => false,
    }
}

fn copy_key(a: &Option<String>) -> (r: Option<String>)
    ensures
        opt_text(r) == opt_text(*a),
{
    match a {
        Some(x) => Some(x.clone()),
        None => None,
    }
}

/// The collected metrics grouped by catalog, in key order (no catalog
/// first). When the run is limited to catalog `only`, every software is
/// counted in it.
pub fn group_by_catalog(items: &[(Option<String>, SoftwareMetrics)], only: Option<&str>) -> (r: Vec<
    (Option<String>, Vec<SoftwareMetrics>),
>)
    ensures
        grouped(
            r@,
            items@,
            match only {
                Some(id) => Some(id@),
                None => None,
            },
        ),
{
    let ghost o: Option<Seq<char>> = match only {
        Some(id) => Some(id@),
        None => None,
    };
    let only_key: Option<String> = match only {
        Some(id) => Some(id.to_string()),
        None => None,
    };
    assert(opt_text(only_key) == o);
    let mut gs: Vec<(Option<String>, Vec<SoftwareMetrics>)> = Vec::new();
    let mut n: usize = 0;
    while n < items.len()
        invariant
            n <= items@.len(),
            opt_text(only_key) == o,
            grouped(gs@, items@.take(n as int), o),
        decreases items.len() - n,
    {
        let ghost pre = items@.take(n as int);
        let ghost post = items@.take(n + 1);
        assert(post.drop_last() =~= pre);
        let key: Option<String> = match &only_key {
            Some(id) => Some(id.clone()),
            None => copy_key(&items[n].0),
        };
        assert(opt_text(key) == group_key(items@[n as int].0, o));
        let ghost k = opt_text(key);
        // Find the group of `key`, or where it goes.
        let mut p: usize = 0;
        while p < gs.len() && key_less(&gs[p].0, &key)
            invariant
                p <= gs@.len(),
                k == opt_text(key),
                forall|i: int| 0 <= i < p ==> key_lt(opt_text(#[trigger] gs@[i].0), k),
            decreases gs.len() - p,
        {
            p += 1;
        }
        let ghost g0 = gs@;
        if p < gs.len() && key_equal(&gs[p].0, &key) {
            let (gk, mut ms) = gs.remove(p);
            ms.push(items[n].1);
            gs.insert(p, (gk, ms));
            proof {
                assert forall|i: int| 0 <= i < gs@.len() implies (#[trigger] gs@[i]).1@
                    == group_members(post, o, opt_text(gs@[i].0)) && gs@[i].1@.len() > 0 by {
                    if i != p {
                        assert(gs@[i] == g0[i]);
                        assert(opt_text(g0[i].0) != k) by {
                            lemma_key_lt_facts(opt_text(g0[i].0), k, k);
                            if i < p {
                            } else {
                                lemma_key_lt_facts(k, opt_text(g0[i].0), k);
                                assert(key_lt(opt_text(g0[p as int].0), opt_text(g0[i].0)));
                            }
                        }
                    }
                }
                assert forall|j: int| 0 <= j < post.len() implies exists|i: int|
                    0 <= i < gs@.len() && opt_text(#[trigger] gs@[i].0) == group_key(
                        #[trigger] post[j].0,
                        o,
                    ) by {
                    if j < pre.len() {
                        assert(post[j] == pre[j]);
                        let i = choose|i: int|
                            0 <= i < g0.len() && opt_text(#[trigger] g0[i].0) == group_key(
                                #[trigger] pre[j].0,
                                o,
                            );
                        assert(opt_text(gs@[i].0) == opt_text(g0[i].0));
                    } else {
                        assert(opt_text(gs@[p as int].0) == k);
                    }
                }
                assert forall|i: int, j: int| 0 <= i < j < gs@.len() implies key_lt(
                    opt_text(#[trigger] gs@[i].0),
                    opt_text(#[trigger] gs@[j].0),
                ) by {
                    assert(opt_text(gs@[i].0) == opt_text(g0[i].0));
                    assert(opt_text(gs@[j].0) == opt_text(g0[j].0));
                }
            }
        } else {
            let mut ms: Vec<SoftwareMetrics> = Vec::new();
            ms.push(items[n].1);
            gs.insert(p, (key, ms));
            proof {
                assert(forall|i: int| 0 <= i < pre.len() ==> group_key(#[trigger] pre[i].0, o) != k)
                    by {
                    assert forall|i: int| 0 <= i < pre.len() implies group_key(#[trigger] pre[i].0, o)
                        != k by {
                        let q = choose|q: int|
                            0 <= q < g0.len() && opt_text(#[trigger] g0[q].0) == group_key(
                                #[trigger] pre[i].0,
                                o,
                            );
                        if q < p {
                            lemma_key_lt_facts(k, k, k);
                        } else if q == p {
                        } else {
                            if p < g0.len() {
                                lemma_key_lt_facts(opt_text(g0[p as int].0), k, k);
                                lemma_key_lt_facts(k, opt_text(g0[p as int].0), opt_text(g0[q].0));
                                lemma_key_lt_facts(k, k, k);
                            }
                        }
                    }
                }
                assert(group_members(pre, o, k) =~= Seq::<SoftwareMetrics>::empty()) by {
                    lemma_members_absent(pre, o, k);
                }
                assert forall|i: int| 0 <= i < gs@.len() implies (#[trigger] gs@[i]).1@
                    == group_members(post, o, opt_text(gs@[i].0)) && gs@[i].1@.len() > 0 by {
                    if i < p {
                        assert(gs@[i] == g0[i]);
                    } else if i > p {
                        assert(gs@[i] == g0[i - 1]);
                        lemma_key_lt_facts(k, opt_text(g0[i - 1].0), k);
                        if p < g0.len() {
                            lemma_key_lt_facts(k, opt_text(g0[p as int].0), opt_text(g0[i - 1].0));
                            lemma_key_lt_facts(opt_text(g0[p as int].0), k, k);
                        }
                    } else {
                        assert(ms@ =~= seq![items@[n as int].1]);
                    }
                }
                assert forall|j: int| 0 <= j < post.len() implies exists|i: int|
                    0 <= i < gs@.len() && opt_text(#[trigger] gs@[i].0) == group_key(
                        #[trigger] post[j].0,
                        o,
                    ) by {
                    if j < pre.len() {
                        assert(post[j] == pre[j]);
                        let i = choose|i: int|
                            0 <= i < g0.len() && opt_text(#[trigger] g0[i].0) == group_key(
                                #[trigger] pre[j].0,
                                o,
                            );
                        if i < p {
                            assert(opt_text(gs@[i].0) == opt_text(g0[i].0));
                        } else {
                            assert(opt_text(gs@[i + 1].0) == opt_text(g0[i].0));
                        }
                    } else {
                        assert(opt_text(gs@[p as int].0) == k);
                    }
                }
                assert forall|i: int, j: int| 0 <= i < j < gs@.len() implies key_lt(
                    opt_text(#[trigger] gs@[i].0),
                    opt_text(#[trigger] gs@[j].0),
                ) by {
                    if p < g0.len() {
                        lemma_key_lt_facts(opt_text(g0[p as int].0), k, k);
                        lemma_key_lt_facts(k, opt_text(g0[p as int].0), k);
                    }
                    if j < p {
                        assert(gs@[i] == g0[i] && gs@[j] == g0[j]);
                    } else if j == p {
                        assert(gs@[i] == g0[i]);
                    } else if i == p {
                        assert(gs@[j] == g0[j - 1]);
                        if j - 1 > p {
                            lemma_key_lt_facts(k, opt_text(g0[p as int].0), opt_text(g0[j - 1].0));
                        }
                    } else if i < p {
                        assert(gs@[i] == g0[i] && gs@[j] == g0[j - 1]);
                    } else {
                        assert(gs@[i] == g0[i - 1] && gs@[j] == g0[j - 1]);
                    }
                }
            }
        }
        n += 1;
    }
    assert(items@.take(n as int) =~= items@);
    gs
}

proof fn lemma_members_absent(
    items: Seq<(Option<String>, SoftwareMetrics)>,
    only: Option<Seq<char>>,
    k: Option<Seq<char>>,
)
    requires
        forall|i: int| 0 <= i < items.len() ==> group_key(#[trigger] items[i].0, only) != k,
    ensures
        group_members(items, only, k) == Seq::<SoftwareMetrics>::empty(),
    decreases items.len(),
{
    if items.len() > 0 {
        assert forall|i: int| 0 <= i < items.drop_last().len() implies group_key(
            #[trigger] items.drop_last()[i].0,
            only,
        ) != k by {
            assert(items.drop_last()[i] == items[i]);
        }
        lemma_members_absent(items.drop_last(), only, k);
        assert(group_key(items[items.len() - 1].0, only) != k);
    }
}

/// The catalog keys of the items, in order.
pub open spec fn item_keys(items: Seq<(Option<String>, SoftwareMetrics)>, only: Option<Seq<char>>) -> Seq<
    Option<Seq<char>>,
> {
    items.map_values(|it: (Option<String>, SoftwareMetrics)| group_key(it.0, only))
}

proof fn lemma_members_count(
    items: Seq<(Option<String>, SoftwareMetrics)>,
    only: Option<Seq<char>>,
    k: Option<Seq<char>>,
)
    ensures
        group_members(items, only, k).len() == occurrences(item_keys(items, only), k),
    decreases items.len(),
{
    if items.len() > 0 {
        lemma_members_count(items.drop_last(), only, k);
        assert(item_keys(items, only).drop_last() =~= item_keys(items.drop_last(), only));
    }
}

proof fn lemma_group_sizes(
    gs: Seq<(Option<String>, Vec<SoftwareMetrics>)>,
    items: Seq<(Option<String>, SoftwareMetrics)>,
    only: Option<Seq<char>>,
    n: int,
)
    requires
        grouped(gs, items, only),
        0 <= n <= gs.len(),
    ensures
        flattened(gs, n as nat).len() == sum_over(
            gs.map_values(|g: (Option<String>, Vec<SoftwareMetrics>)| opt_text(g.0)).take(n),
            |k: Option<Seq<char>>| occurrences(item_keys(items, only), k),
        ),
    decreases n,
{
    let ks = gs.map_values(|g: (Option<String>, Vec<SoftwareMetrics>)| opt_text(g.0));
    if n > 0 {
        lemma_group_sizes(gs, items, only, n - 1);
        assert(ks.take(n).drop_last() =~= ks.take(n - 1));
        lemma_members_count(items, only, opt_text(gs[n - 1].0));
    } else {
        assert(ks.take(0) =~= Seq::<Option<Seq<char>>>::empty());
    }
}

/// Every collected software is counted in exactly one group: together
/// the groups hold as many metrics as there are items.
pub proof fn lemma_groups_count_each_once(
    gs: Seq<(Option<String>, Vec<SoftwareMetrics>)>,
    items: Seq<(Option<String>, SoftwareMetrics)>,
    only: Option<Seq<char>>,
)
    requires
        grouped(gs, items, only),
    ensures
        flattened(gs, gs.len()).len() == items.len(),
{
    let ks = gs.map_values(|g: (Option<String>, Vec<SoftwareMetrics>)| opt_text(g.0));
    let xs = item_keys(items, only);
    lemma_group_sizes(gs, items, only, gs.len() as int);
    assert(ks.take(gs.len() as int) =~= ks);
    assert(ks.no_duplicates()) by {
        assert forall|a: int, b: int| 0 <= a < ks.len() && 0 <= b < ks.len() && a != b implies ks[a]
            != ks[b] by {
            lemma_key_lt_facts(ks[a], ks[b], ks[a]);
            if a < b {
                assert(key_lt(opt_text(gs[a].0), opt_text(gs[b].0)));
            } else {
                assert(key_lt(opt_text(gs[b].0), opt_text(gs[a].0)));
            }
        }
    }
    assert forall|k: Option<Seq<char>>| ks.contains(k) <==> occurrences(xs, k) > 0 by {
        lemma_members_count(items, only, k);
        if ks.contains(k) {
            let i = choose|i: int| 0 <= i < ks.len() && ks[i] == k;
            assert(gs[i].1@.len() > 0);
        }
        if occurrences(xs, k) > 0 {
            lemma_occurs_at(xs, k);
            let j = choose|j: int| 0 <= j < xs.len() && xs[j] == k;
            assert(xs[j] == group_key(items[j].0, only));
            let i = choose|i: int|
                0 <= i < gs.len() && opt_text(#[trigger] gs[i].0) == group_key(
                    #[trigger] items[j].0,
                    only,
                );
            assert(ks[i] == k);
        }
    }
    lemma_occurrences_sum(xs, ks);
}

proof fn lemma_occurs_at<K>(xs: Seq<K>, k: K)
    requires
        occurrences(xs, k) > 0,
    ensures
        exists|j: int| 0 <= j < xs.len() && xs[j] == k,
    decreases xs.len(),
{
    if xs.last() != k {
        lemma_occurs_at(xs.drop_last(), k);
        let j = choose|j: int| 0 <= j < xs.drop_last().len() && xs.drop_last()[j] == k;
        assert(xs[j] == k);
    } else {
        assert(xs[xs.len() - 1] == k);
    }
}

/// Whether the run also writes a global aggregate to the root catalog: it
/// is not limited to one catalog and the software spans at least two.
pub fn needs_root_aggregate(only: Option<&str>, groups: &[(Option<String>, Vec<SoftwareMetrics>)]) -> (r:
    bool)
    ensures
        r == (only is None && catalogs_in(groups@, groups@.len()) >= 2),
{
    let mut count: usize = 0;
    let mut i: usize = 0;
    while i < groups.len()
        invariant
            i <= groups@.len(),
            count == catalogs_in(groups@, i as nat),
            count <= i,
        decreases groups.len() - i,
    {
        if groups[i].0.is_some() {
            count += 1;
        }
        i += 1;
    }
    only.is_none() && count >= 2
}

/// How many of the first `n` groups belong to a catalog.
pub open spec fn catalogs_in(groups: Seq<(Option<String>, Vec<SoftwareMetrics>)>, n: nat) -> nat
    decreases n,
{
    if n == 0 {
        0
    } else {
        catalogs_in(groups, (n - 1) as nat) + if groups[n - 1].0 is Some {
            1nat
        } else {
            0nat
        }
    }
}

/// The metrics of the first `n` groups, one group after the other.
pub open spec fn flattened(groups: Seq<(Option<String>, Vec<SoftwareMetrics>)>, n: nat) -> Seq<
    SoftwareMetrics,
>
    decreases n,
{
    if n == 0 {
        Seq::empty()
    } else {
        flattened(groups, (n - 1) as nat) + groups[n - 1].1@
    }
}

/// All the metrics of all groups, for the global aggregate.
pub fn all_metrics(groups: &[(Option<String>, Vec<SoftwareMetrics>)]) -> (r: Vec<SoftwareMetrics>)
    ensures
        r@ == flattened(groups@, groups@.len()),
{
    let mut out: Vec<SoftwareMetrics> = Vec::new();
    let mut i: usize = 0;
    while i < groups.len()
        invariant
            i <= groups@.len(),
            out@ == flattened(groups@, i as nat),
        decreases groups.len() - i,
    {
        let ghost o0 = out@;
        let ms = &groups[i].1;
        let mut j: usize = 0;
        while j < ms.len()
            invariant
                j <= ms@.len(),
                out@ == o0 + ms@.take(j as int),
            decreases ms.len() - j,
        {
            out.push(ms[j]);
            assert(ms@.take(j + 1) =~= ms@.take(j as int).push(ms@[j as int]));
            j += 1;
        }
        assert(ms@.take(j as int) =~= ms@);
        i += 1;
    }
    out
}

/// The summary of a run over `total` software of which `processed`
/// were collected and written.
pub fn summarize(total: usize, processed: usize, cache: CacheStats) -> (r: Summary)
    requires
        processed <= total,
    ensures
        r.processed == processed,
        r.failed == total - processed,
        r.cache == cache,
{
    Summary { processed, failed: total - processed, cache }
}

} // verus!
