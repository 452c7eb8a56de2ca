//! Per-metric statistics over the software of a catalog.
//!
//! The mean and the median are floating-point numbers in the catalog
//! analysis; this module gives the integers they are computed from (the
//! sum and the two middle values), the rest exactly.
use vstd::prelude::*;

use crate::dates::{format_rfc3339, rfc3339_text_of};
use crate::forge::ForgeResult;
use crate::metrics::SoftwareMetrics;

use vstd::relations::{sorted_by, total_ordering};

verus! {

broadcast use vstd::seq_lib::group_to_multiset_ensures;

/// Statistics of a nonempty list of values.
#[derive(Clone, Copy, Debug, PartialEq, Eq)]
pub struct Stats {
    pub max: u64,
    pub min: u64,
    pub count: u64,
    /// The sum of the values; the mean is `sum / count`, rounded to one
    /// decimal.
    pub sum: u128,
    /// The two middle values in increasing order (the same value for an
    /// odd count); the median is the middle value of an odd count and
    /// the mean of the two of an even one, rounded to one decimal.
    pub median_low: u64,
    pub median_high: u64,
    /// The value at the 95th percentile (nearest rank).
    pub p95: u64,
}

/// The order values are sorted in.
pub open spec fn ascending() -> spec_fn(u64, u64) -> bool {
    |a: u64, b: u64| a <= b
}

/// The values in increasing order.
pub open spec fn sorted_values(v: Seq<u64>) -> Seq<u64> {
    v.sort_by(ascending())
}

/// The sum of the values.
pub open spec fn sum_of(v: Seq<u64>) -> int
    decreases v.len(),
{
    if v.len() == 0 {
        0
    } else {
        sum_of(v.drop_last()) + v.last()
    }
}

/// The index of the nearest-rank 95th percentile among `n >= 1` sorted
/// values: `ceil(0.95 * n) - 1`.
pub open spec fn p95_index(n: nat) -> int {
    (19 * n + 19) / 20 - 1
}

/// The statistics of `v`, `None` when it is empty.
pub open spec fn stats_of(v: Seq<u64>) -> Option<Stats> {
    let s = sorted_values(v);
    let n = v.len();
    if n == 0 {
        None
    } else {
        Some(
            Stats {
                max: s[n - 1],
                min: s[0],
                count: n as u64,
                sum: sum_of(v) as u128,
                median_low: if n % 2 == 0 {
                    s[n / 2 - 1]
                } else {
                    s[(n / 2) as int]
                },
                median_high: s[(n / 2) as int],
                p95: s[p95_index(n)],
            },
        )
    }
}

proof fn lemma_ascending_total()
    ensures
        total_ordering(ascending()),
{
}

proof fn lemma_sum_bound(v: Seq<u64>)
    ensures
        0 <= sum_of(v) <= v.len() * 0xffff_ffff_ffff_ffff,
    decreases v.len(),
{
    if v.len() > 0 {
        lemma_sum_bound(v.drop_last());
    }
}

/// The statistics of a list are ordered as its values are: the minimum
/// comes first, then the middle values and the 95th percentile, the
/// maximum last; and there is one count per value.
pub proof fn lemma_stats_ordered(v: Seq<u64>)
    requires
        0 < v.len() <= u64::MAX,
    ensures
        stats_of(v) matches Some(s) && s.count == v.len() && s.min <= s.median_low <= s.median_high
            <= s.max && s.min <= s.p95 <= s.max,
{
    lemma_ascending_total();
    v.lemma_sort_by_ensures(ascending());
    let s = sorted_values(v);
    assert(s.len() == v.len()) by {
        assert(s.to_multiset().len() == v.to_multiset().len());
    }
    let n = v.len();
    assert((19 * n + 19) / 20 - 1 < n) by (nonlinear_arith)
        requires
            n >= 1,
    ;
    assert(0 <= (19 * n + 19) / 20 - 1) by (nonlinear_arith)
        requires
            n >= 1,
    ;
    let p = p95_index(n);
    let lo: int = if n % 2 == 0 {
        (n / 2) as int - 1
    } else {
        (n / 2) as int
    };
    let hi: int = (n / 2) as int;
    if 0 < lo {
        assert(ascending()(s[0], s[lo]));
    }
    if lo < hi {
        assert(ascending()(s[lo], s[hi]));
    }
    if hi < n - 1 {
        assert(ascending()(s[hi], s[n - 1]));
    }
    if 0 < p {
        assert(ascending()(s[0], s[p]));
    }
    if p < n - 1 {
        assert(ascending()(s[p], s[n - 1]));
    }
}

/// The values in increasing order.
fn sort_values(values: &[u64]) -> (r: Vec<u64>)
    ensures
        r@ == sorted_values(values@),
{
    let mut out: Vec<u64> = Vec::new();
    let mut i: usize = 0;
    while i < values.len()
        invariant
            i <= values@.len(),
            sorted_by(out@, ascending()),
            out@.to_multiset() == values@.take(i as int).to_multiset(),
        decreases values.len() - i,
    {
        let x = values[i];
        let mut k: usize = 0;
        while k < out.len() && out[k] <= x
            invariant
                k <= out@.len(),
                forall|j: int| 0 <= j < k ==> out@[j] <= x,
            decreases out.len() - k,
        {
            k += 1;
        }
        let ghost before = out@;
        out.insert(k, x);
        proof {
            assert(out@ == before.insert(k as int, x));
            assert forall|a: int, b: int| 0 <= a < b < out@.len() implies #[trigger] ascending()(
                out@[a],
                out@[b],
            ) by {
                if b < k {
                    assert(ascending()(before[a], before[b]));
                } else if a > k {
                    assert(ascending()(before[a - 1], before[b - 1]));
                } else if a == k {
                    if k < before.len() {
                        assert(before[k as int] > x);
                        assert(ascending()(before[k as int], before[b - 1]));
                    }
                } else {
                    assert(out@[a] == before[a]);
                }
            }
            assert(values@.take(i + 1) =~= values@.take(i as int).push(x));
        }
        i += 1;
    }
    proof {
        assert(values@.take(i as int) =~= values@);
        lemma_ascending_total();
        values@.lemma_sort_by_ensures(ascending());
        vstd::seq_lib::lemma_sorted_unique(out@, sorted_values(values@), ascending());
    }
    out
}

/// Max, min, count, sum, the middle values and the 95th percentile of the
/// values; `None` for no values.
pub fn stats(values: &[u64]) -> (r: Option<Stats>)
    ensures
        r == stats_of(values@),
{
    if values.len() == 0 {
        return None;
    }
    let v = sort_values(values);
    proof {
        lemma_ascending_total();
        values@.lemma_sort_by_ensures(ascending());
        assert(v@.len() == values@.len()) by {
            assert(v@.to_multiset().len() == values@.to_multiset().len());
        }
    }
    let n = v.len();
    let mut sum: u128 = 0;
    let mut i: usize = 0;
    while i < values.len()
        invariant
            i <= values@.len(),
            sum == sum_of(values@.take(i as int)),
        decreases values.len() - i,
    {
        proof {
            assert(values@.take(i + 1).drop_last() =~= values@.take(i as int));
            lemma_sum_bound(values@.take(i + 1));
            assert((i + 1) * 0xffff_ffff_ffff_ffff < 0x1_0000_0000_0000_0000_0000_0000_0000_0000)
                by (nonlinear_arith)
                requires
                    i + 1 <= 0xffff_ffff_ffff_ffff,
            ;
        }
        sum = sum + values[i] as u128;
        i += 1;
    }
    assert(values@.take(i as int) =~= values@);
    let rank: usize = ((19 * (n as u128) + 19) / 20 - 1) as usize;
    assert(rank < n) by (nonlinear_arith)
        requires
            rank == (19 * n + 19) / 20 - 1,
            n >= 1,
    ;
    let low = if n % 2 == 0 {
        v[n / 2 - 1]
    } else {
        v[n / 2]
    };
    Some(
        Stats {
            max: v[n - 1],
            min: v[0],
            count: n as u64,
            sum,
            median_low: low,
            median_high: v[n / 2],
            p95: v[rank],
        },
    )
}

/// The names of the metric columns, in key order.
pub open spec fn column_name(c: nat) -> Seq<char> {
    if c == 0 {
        "commitsAllTime"@
    } else if c == 1 {
        "commitsRecent"@
    } else if c == 2 {
        "contributors"@
    } else if c == 3 {
        "forks"@
    } else if c == 4 {
        "issuesClosed"@
    } else if c == 5 {
        "issuesOpen"@
    } else if c == 6 {
        "pullRequestsAllTime"@
    } else if c == 7 {
        "pullRequestsRecent"@
    } else if c == 8 {
        "stars"@
    } else {
        "tags"@
    }
}

/// The number of metric columns.
pub const COLUMNS: usize = 10;

/// The value a software gives column `c`, if any: the git metrics always,
/// the forge metrics when the forge was measured and holds the value.
pub open spec fn column_value(m: SoftwareMetrics, c: nat) -> Option<u64> {
    if c == 0 {
        Some(m.git.commits_all_time)
    } else if c == 1 {
        Some(m.git.commits_recent)
    } else if c == 2 {
        Some(m.git.contributors)
    } else if c == 9 {
        Some(m.git.tags)
    } else {
        match m.forge {
            ForgeResult::Measured(f) => if c == 3 {
                Some(f.forks)
            } else if c == 4 {
                f.issues_closed
            } else if c == 5 {
                f.issues_open
            } else if c == 6 {
                Some(f.pull_requests_all_time)
            } else if c == 7 {
                f.pull_requests_recent
            } else {
                Some(f.stars)
            },
            _ => None,
        }
    }
}

fn column_value_of(m: &SoftwareMetrics, c: usize) -> (r: Option<u64>)
    requires
        c < COLUMNS,
    ensures
        r == column_value(*m, c as nat),
{
    if c == 0 {
        Some(m.git.commits_all_time)
    } else if c == 1 {
        Some(m.git.commits_recent)
    } else if c == 2 {
        Some(m.git.contributors)
    } else if c == 9 {
        Some(m.git.tags)
    } else {
        match m.forge {
            ForgeResult::Measured(f) => if c == 3 {
                Some(f.forks)
            } else if c == 4 {
                f.issues_closed
            } else if c == 5 {
                f.issues_open
            } else if c == 6 {
                Some(f.pull_requests_all_time)
            } else if c == 7 {
                f.pull_requests_recent
            } else {
                Some(f.stars)
            },
            _ => None,
        }
    }
}

fn column_label(c: usize) -> (r: &'static str)
    requires
        c < COLUMNS,
    ensures
        r@ == column_name(c as nat),
{
    if c == 0 {
        "commitsAllTime"
    } else if c == 1 {
        "commitsRecent"
    } else if c == 2 {
        "contributors"
    } else if c == 3 {
        "forks"
    } else if c == 4 {
        "issuesClosed"
    } else if c == 5 {
        "issuesOpen"
    } else if c == 6 {
        "pullRequestsAllTime"
    } else if c == 7 {
        "pullRequestsRecent"
    } else if c == 8 {
        "stars"
    } else {
        "tags"
    }
}

/// The values of column `c` over the software, in order.
pub open spec fn column(ms: Seq<SoftwareMetrics>, c: nat) -> Seq<u64>
    decreases ms.len(),
{
    if ms.len() == 0 {
        Seq::empty()
    } else {
        match column_value(ms.last(), c) {
            Some(x) => column(ms.drop_last(), c).push(x),
            None => column(ms.drop_last(), c),
        }
    }
}

/// The statistics of the first `k` columns that hold a value, each under
/// its name.
pub open spec fn column_stats(ms: Seq<SoftwareMetrics>, k: nat) -> Seq<(Seq<char>, Stats)>
    decreases k,
{
    if k == 0 {
        Seq::empty()
    } else {
        let prev = column_stats(ms, (k - 1) as nat);
        match stats_of(column(ms, (k - 1) as nat)) {
            Some(s) => prev.push((column_name((k - 1) as nat), s)),
            None => prev,
        }
    }
}

/// The values `f` gives for the software, in order, skipping the
/// software it gives none for.
pub open spec fn picked(ms: Seq<SoftwareMetrics>, f: spec_fn(SoftwareMetrics) -> Option<u64>) -> Seq<u64>
    decreases ms.len(),
{
    if ms.len() == 0 {
        Seq::empty()
    } else {
        match f(ms.last()) {
            Some(x) => picked(ms.drop_last(), f).push(x),
            None => picked(ms.drop_last(), f),
        }
    }
}

/// The statistics list holds the statistics of `values` under `name`
/// when there are values.
pub open spec fn lists_column(entries: Seq<(Seq<char>, Stats)>, name: Seq<char>, values: Seq<u64>) -> bool {
    values.len() > 0 ==> exists|i: int|
        0 <= i < entries.len() && entries[i].0 == name && Some(entries[i].1) == stats_of(values)
}

/// A forge value of a software, when its forge was measured.
pub open spec fn forge_pick(m: SoftwareMetrics, f: spec_fn(crate::forge::ForgeMetrics) -> Option<u64>) -> Option<u64> {
    match m.forge {
        ForgeResult::Measured(x) => f(x),
        _ => None,
    }
}

proof fn lemma_column_picked(ms: Seq<SoftwareMetrics>, c: nat, f: spec_fn(SoftwareMetrics) -> Option<u64>)
    requires
        forall|m: SoftwareMetrics| column_value(m, c) == f(m),
    ensures
        column(ms, c) == picked(ms, f),
    decreases ms.len(),
{
    if ms.len() > 0 {
        lemma_column_picked(ms.drop_last(), c, f);
        assert(column_value(ms.last(), c) == f(ms.last()));
    }
}

proof fn lemma_column_listed(ms: Seq<SoftwareMetrics>, c: nat, k: nat)
    requires
        c < k,
        column(ms, c).len() > 0,
    ensures
        lists_column(column_stats(ms, k), column_name(c), column(ms, c)),
    decreases k,
{
    let prev = column_stats(ms, (k - 1) as nat);
    if c < k - 1 {
        lemma_column_listed(ms, c, (k - 1) as nat);
        let i = choose|i: int|
            0 <= i < prev.len() && prev[i].0 == column_name(c) && Some(prev[i].1) == stats_of(column(ms, c));
        match stats_of(column(ms, (k - 1) as nat)) {
            Some(s) => assert(column_stats(ms, k)[i] == prev[i]),
            None => {},
        }
    } else {
        let s = stats_of(column(ms, c))->0;
        assert(column_stats(ms, k)[prev.len() as int] == (column_name(c), s));
    }
}

/// Each statistics entry is the metric its name says: the git metrics of
/// every software under `commitsAllTime`, `commitsRecent`, `contributors`
/// and `tags`, and the forge values of the measured software under
/// `forks`, `issuesClosed`, `issuesOpen`, `pullRequestsAllTime`,
/// `pullRequestsRecent` and `stars`.
pub proof fn lemma_columns_are_the_named_metrics(ms: Seq<SoftwareMetrics>)
    ensures
        ({
            let e = column_stats(ms, COLUMNS as nat);
            &&& lists_column(e, "commitsAllTime"@, picked(ms, |m: SoftwareMetrics| Some(m.git.commits_all_time)))
            &&& lists_column(e, "commitsRecent"@, picked(ms, |m: SoftwareMetrics| Some(m.git.commits_recent)))
            &&& lists_column(e, "contributors"@, picked(ms, |m: SoftwareMetrics| Some(m.git.contributors)))
            &&& lists_column(e, "tags"@, picked(ms, |m: SoftwareMetrics| Some(m.git.tags)))
            &&& lists_column(e, "forks"@, picked(ms, |m: SoftwareMetrics| forge_pick(m, |f: crate::forge::ForgeMetrics| Some(f.forks))))
            &&& lists_column(e, "issuesClosed"@, picked(ms, |m: SoftwareMetrics| forge_pick(m, |f: crate::forge::ForgeMetrics| f.issues_closed)))
            &&& lists_column(e, "issuesOpen"@, picked(ms, |m: SoftwareMetrics| forge_pick(m, |f: crate::forge::ForgeMetrics| f.issues_open)))
            &&& lists_column(e, "pullRequestsAllTime"@, picked(ms, |m: SoftwareMetrics| forge_pick(m, |f: crate::forge::ForgeMetrics| Some(f.pull_requests_all_time))))
            &&& lists_column(e, "pullRequestsRecent"@, picked(ms, |m: SoftwareMetrics| forge_pick(m, |f: crate::forge::ForgeMetrics| f.pull_requests_recent)))
            &&& lists_column(e, "stars"@, picked(ms, |m: SoftwareMetrics| forge_pick(m, |f: crate::forge::ForgeMetrics| Some(f.stars))))
        }),
{
    let k = COLUMNS as nat;
    let fs = seq![
        |m: SoftwareMetrics| Some(m.git.commits_all_time),
        |m: SoftwareMetrics| Some(m.git.commits_recent),
        |m: SoftwareMetrics| Some(m.git.contributors),
        |m: SoftwareMetrics| forge_pick(m, |f: crate::forge::ForgeMetrics| Some(f.forks)),
        |m: SoftwareMetrics| forge_pick(m, |f: crate::forge::ForgeMetrics| f.issues_closed),
        |m: SoftwareMetrics| forge_pick(m, |f: crate::forge::ForgeMetrics| f.issues_open),
        |m: SoftwareMetrics| forge_pick(m, |f: crate::forge::ForgeMetrics| Some(f.pull_requests_all_time)),
        |m: SoftwareMetrics| forge_pick(m, |f: crate::forge::ForgeMetrics| f.pull_requests_recent),
        |m: SoftwareMetrics| forge_pick(m, |f: crate::forge::ForgeMetrics| Some(f.stars)),
        |m: SoftwareMetrics| Some(m.git.tags),
    ];
    assert forall|c: nat| c < 10 implies lists_column(column_stats(ms, k), column_name(c), picked(ms, fs[c as int])) by {
        assert forall|m: SoftwareMetrics| column_value(m, c) == fs[c as int](m) by {}
        lemma_column_picked(ms, c, fs[c as int]);
        if column(ms, c).len() > 0 {
            lemma_column_listed(ms, c, k);
        }
    }
    assert(lists_column(column_stats(ms, k), column_name(0), picked(ms, fs[0])));
    assert(lists_column(column_stats(ms, k), column_name(1), picked(ms, fs[1])));
    assert(lists_column(column_stats(ms, k), column_name(2), picked(ms, fs[2])));
    assert(lists_column(column_stats(ms, k), column_name(3), picked(ms, fs[3])));
    assert(lists_column(column_stats(ms, k), column_name(4), picked(ms, fs[4])));
    assert(lists_column(column_stats(ms, k), column_name(5), picked(ms, fs[5])));
    assert(lists_column(column_stats(ms, k), column_name(6), picked(ms, fs[6])));
    assert(lists_column(column_stats(ms, k), column_name(7), picked(ms, fs[7])));
    assert(lists_column(column_stats(ms, k), column_name(8), picked(ms, fs[8])));
    assert(lists_column(column_stats(ms, k), column_name(9), picked(ms, fs[9])));
}

/// The `activity` namespace of a catalog.
#[derive(Debug)]
pub struct CatalogAnalysis {
    pub v: u32,
    pub updated_at: String,
    pub software_count: u64,
    pub recent_days: u32,
    /// One entry per metric with at least one value, in key order.
    pub stats: Vec<(String, Stats)>,
}

/// The statistics of every metric over the software of a catalog, stamped
/// with `now` (nanoseconds since the Unix epoch) in RFC 3339.
pub fn catalog_analysis(metrics: &[SoftwareMetrics], recent_days: u32, now_unix_nanos: i128) -> (r:
    CatalogAnalysis)
    ensures
        r.v == 1,
        r.updated_at@ == rfc3339_text_of(now_unix_nanos),
        r.software_count == metrics@.len(),
        r.recent_days == recent_days,
        r.stats@.len() == column_stats(metrics@, COLUMNS as nat).len(),
        forall|i: int|
            0 <= i < r.stats@.len() ==> (#[trigger] r.stats@[i]).0@ == column_stats(
                metrics@,
                COLUMNS as nat,
            )[i].0 && r.stats@[i].1 == column_stats(metrics@, COLUMNS as nat)[i].1,
{
    let mut out: Vec<(String, Stats)> = Vec::new();
    let mut c: usize = 0;
    while c < COLUMNS
        invariant
            c <= COLUMNS,
            out@.len() == column_stats(metrics@, c as nat).len(),
            forall|i: int|
                0 <= i < out@.len() ==> (#[trigger] out@[i]).0@ == column_stats(
                    metrics@,
                    c as nat,
                )[i].0 && out@[i].1 == column_stats(metrics@, c as nat)[i].1,
        decreases COLUMNS - c,
    {
        let mut values: Vec<u64> = Vec::new();
        let mut j: usize = 0;
        while j < metrics.len()
            invariant
                c < COLUMNS,
                j <= metrics@.len(),
                values@ == column(metrics@.take(j as int), c as nat),
            decreases metrics.len() - j,
        {
            assert(metrics@.take(j + 1).drop_last() =~= metrics@.take(j as int));
            match column_value_of(&metrics[j], c) {
                Some(x) => values.push(x),
                None => {},
            }
            j += 1;
        }
        assert(metrics@.take(j as int) =~= metrics@);
        let ghost prev = column_stats(metrics@, c as nat);
        match stats(values.as_slice()) {
            Some(s) => {
                let label = column_label(c);
                out.push((label.to_string(), s));
                proof {
                    let next = column_stats(metrics@, (c + 1) as nat);
                    assert(next == prev.push((column_name(c as nat), s)));
                    assert forall|i: int| 0 <= i < out@.len() implies (#[trigger] out@[i]).0@
                        == next[i].0 && out@[i].1 == next[i].1 by {
                        if i == prev.len() {
                            assert(out@[i].0@ == label@);
                        }
                    }
                }
            },
            None => {},
        }
        c += 1;
    }
    let stamp = format_rfc3339(now_unix_nanos);
    CatalogAnalysis {
        v: 1,
        updated_at: stamp,
        software_count: metrics.len() as u64,
        recent_days,
        stats: out,
    }
}

} // verus!
