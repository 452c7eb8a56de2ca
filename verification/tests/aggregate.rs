use activity_metrics_collector::aggregate::{catalog_analysis, stats, Stats};
use activity_metrics_collector::forge::{ForgeMetrics, ForgeResult};
use activity_metrics_collector::gitcache::derive::GitMetrics;
use activity_metrics_collector::metrics::SoftwareMetrics;

#[test]
fn stats_of_nothing_is_none() {
    assert_eq!(stats(&[]), None);
}

#[test]
fn stats_of_an_odd_count() {
    assert_eq!(
        stats(&[5, 1, 3]),
        Some(Stats {
            max: 5,
            min: 1,
            count: 3,
            sum: 9,
            median_low: 3,
            median_high: 3,
            p95: 5,
        })
    );
}

#[test]
fn stats_of_an_even_count() {
    let s = stats(&[4, 1, 3, 2]).unwrap();
    assert_eq!((s.median_low, s.median_high), (2, 3));
    assert_eq!(s.sum, 10);
    assert_eq!(s.p95, 4);
}

#[test]
fn p95_is_the_nearest_rank() {
    let v: Vec<u64> = (1..=20).collect();
    // ceil(0.95 * 20) = 19: the 19th value.
    assert_eq!(stats(&v).unwrap().p95, 19);
    let v: Vec<u64> = (1..=21).collect();
    // ceil(0.95 * 21) = 20.
    assert_eq!(stats(&v).unwrap().p95, 20);
    assert_eq!(stats(&[7]).unwrap().p95, 7);
}

#[test]
fn sums_do_not_overflow() {
    let s = stats(&[u64::MAX, u64::MAX]).unwrap();
    assert_eq!(s.sum, 2 * u64::MAX as u128);
}

fn software(commits: u64, forge: ForgeResult) -> SoftwareMetrics {
    SoftwareMetrics {
        git: GitMetrics {
            contributors: 1,
            commits_all_time: commits,
            commits_recent: 0,
            tags: 2,
            oldest_commit: 2_451_545,
        },
        forge,
        recent_days: 180,
    }
}

#[test]
fn catalog_columns_come_in_key_order() {
    let measured = ForgeMetrics {
        stars: 10,
        forks: 1,
        issues_open: None,
        issues_closed: None,
        issues_disabled: true,
        pull_requests_all_time: 3,
        pull_requests_recent: Some(1),
    };
    let ms = vec![
        software(5, ForgeResult::Measured(measured)),
        software(7, ForgeResult::Failed),
        software(9, ForgeResult::Unsupported),
    ];
    let a = catalog_analysis(&ms, 180, 0);
    assert_eq!(a.v, 1);
    assert_eq!(a.software_count, 3);
    assert_eq!(a.recent_days, 180);
    assert_eq!(a.updated_at, "1970-01-01T00:00:00Z");
    let names: Vec<&str> = a.stats.iter().map(|(n, _)| n.as_str()).collect();
    assert_eq!(
        names,
        vec![
            "commitsAllTime",
            "commitsRecent",
            "contributors",
            "forks",
            "pullRequestsAllTime",
            "pullRequestsRecent",
            "stars",
            "tags"
        ]
    );
    let commits = a.stats[0].1;
    assert_eq!((commits.min, commits.max, commits.count, commits.sum), (5, 9, 3, 21));
    let stars = a.stats[6].1;
    assert_eq!((stars.count, stars.max), (1, 10));
}

#[test]
fn an_empty_catalog_has_no_columns() {
    let a = catalog_analysis(&[], 30, 0);
    assert!(a.stats.is_empty());
    assert_eq!(a.software_count, 0);
}
