use activity_metrics_collector::daymap::DayMap;
use activity_metrics_collector::gitcache::refresh::{
    build_cache, empty_shallow_window, finish_refresh, fits_calendar, has_two_words,
    merge_caches, parse_commits, parse_tag_days, plan_refresh, BuildError, RefreshPlan,
};
use activity_metrics_collector::gitcache::paths::cache_root;
use activity_metrics_collector::gitcache::refresh::clone_args;
use activity_metrics_collector::gitcache::{Cache, CacheOutcome, DayEntry, TagEntry};

fn day(y: i32, m: u8, d: u8) -> i32 {
    time::Date::from_calendar_date(y, time::Month::try_from(m).unwrap(), d)
        .unwrap()
        .to_julian_day()
}

#[test]
fn detects_empty_shallow_window() {
    assert!(empty_shallow_window(
        "fatal: error processing shallow info: 4\n"
    ));
    assert!(empty_shallow_window(
        "fatal: no commits selected for shallow requests\n"
    ));
}

#[test]
fn ignores_unrelated_git_errors() {
    assert!(!empty_shallow_window("fatal: repository not found"));
    assert!(!empty_shallow_window(
        "fatal: could not read Username: terminal prompts disabled"
    ));
}

#[test]
fn merge_preserves_tags_absent_from_shallow_fresh() {
    let existing = Cache {
        last_updated: day(2026, 5, 25),
        oldest_commit: day(2026, 4, 1),
        first_entry: day(2026, 4, 1),
        authors: vec!["a@b.c".into()],
        entries: vec![DayEntry {
            delta: 0,
            commits: 1,
            merges: 0,
            authors: vec![0],
        }],
        tags: vec![TagEntry { delta: 0, count: 3 }],
    };
    let fresh = Cache {
        last_updated: day(2026, 5, 26),
        oldest_commit: day(2026, 5, 26),
        first_entry: day(2026, 5, 26),
        authors: vec!["a@b.c".into()],
        entries: vec![DayEntry {
            delta: 0,
            commits: 1,
            merges: 0,
            authors: vec![0],
        }],
        tags: vec![],
    };

    let merged = merge_caches(existing, fresh);

    let releases: u16 = merged.tags.iter().map(|t| t.count).sum();
    assert_eq!(releases, 3);
}

#[test]
fn merge_unites_days_and_renumbers_authors() {
    let existing = Cache {
        last_updated: day(2026, 5, 1),
        oldest_commit: day(2026, 4, 1),
        first_entry: day(2026, 4, 1),
        authors: vec!["x@y".into(), "a@b".into()],
        entries: vec![
            DayEntry { delta: 0, commits: 2, merges: 1, authors: vec![0, 1] },
            DayEntry { delta: 10, commits: 1, merges: 0, authors: vec![1] },
        ],
        tags: vec![TagEntry { delta: 5, count: 1 }],
    };
    let fresh = Cache {
        last_updated: day(2026, 5, 2),
        oldest_commit: day(2026, 4, 11),
        first_entry: day(2026, 4, 11),
        authors: vec!["c@d".into()],
        entries: vec![
            DayEntry { delta: 0, commits: 7, merges: 0, authors: vec![0] },
            DayEntry { delta: 3, commits: 1, merges: 1, authors: vec![0, 9] },
        ],
        tags: vec![TagEntry { delta: 0, count: 2 }],
    };
    let m = merge_caches(existing, fresh);
    assert_eq!(m.last_updated, day(2026, 5, 2));
    assert_eq!(m.oldest_commit, day(2026, 4, 1));
    assert_eq!(m.first_entry, day(2026, 4, 1));
    assert_eq!(m.authors, vec!["x@y".to_string(), "a@b".to_string(), "c@d".to_string()]);
    assert_eq!(
        m.entries,
        vec![
            DayEntry { delta: 0, commits: 2, merges: 1, authors: vec![0, 1] },
            // 2026-04-11 is held by both: the fresh data wins.
            DayEntry { delta: 10, commits: 7, merges: 0, authors: vec![2] },
            DayEntry { delta: 3, commits: 1, merges: 1, authors: vec![2] },
        ]
    );
    assert_eq!(
        m.tags,
        vec![TagEntry { delta: 5, count: 1 }, TagEntry { delta: 5, count: 2 }]
    );
}

#[test]
fn two_parents_make_a_merge() {
    let c: Vec<char> = "abc def".chars().collect();
    assert!(has_two_words(&c));
    let c: Vec<char> = "  abc  ".chars().collect();
    assert!(!has_two_words(&c));
    assert!(!has_two_words(&[]));
}

#[test]
fn commits_are_read_from_the_log() {
    let log = "h1\u{1f}2026-04-01T10:00:00+02:00\u{1f}a@b\u{1f}p1\n\nh2\u{1f}2026-04-01T23:30:00-02:00\u{1f}c@d\u{1f}p1 p2";
    let cs = parse_commits(log).unwrap();
    assert_eq!(cs.len(), 2);
    assert_eq!(cs[0].day, day(2026, 4, 1));
    assert_eq!(cs[0].email, "a@b");
    assert!(!cs[0].is_merge);
    // 23:30 at -02:00 is the next day in UTC.
    assert_eq!(cs[1].day, day(2026, 4, 2));
    assert!(cs[1].is_merge);
}

#[test]
fn bad_log_lines_are_errors() {
    assert_eq!(parse_commits("h1").err(), Some(BuildError::MissingDate));
    assert_eq!(parse_commits("h1\u{1f}yesterday\u{1f}a@b").err(), Some(BuildError::BadDate));
    assert_eq!(
        parse_commits("h1\u{1f}2026-04-01T10:00:00Z").err(),
        Some(BuildError::MissingEmail)
    );
    assert_eq!(parse_commits("").unwrap().len(), 0);
}

#[test]
fn tags_are_counted_per_day() {
    let t = parse_tag_days("2026-04-01\n  2026-04-01 \n\n2025-01-02\n").unwrap();
    assert_eq!(
        t.into_pairs(),
        vec![(day(2025, 1, 2), 1), (day(2026, 4, 1), 2)]
    );
    assert_eq!(
        parse_tag_days("not a date").err(),
        Some(BuildError::BadTagDate)
    );
    let empty: DayMap<u16> = parse_tag_days("").unwrap();
    assert_eq!(empty.len(), 0);
}

#[test]
fn a_cache_is_built_from_commits_and_tags() {
    let log = "h1\u{1f}2026-04-03T10:00:00Z\u{1f}b@x\u{1f}p\nh2\u{1f}2026-04-01T10:00:00Z\u{1f}a@x\u{1f}p q\nh3\u{1f}2026-04-03T11:00:00Z\u{1f}a@x\u{1f}p";
    let cs = parse_commits(log).unwrap();
    let c = build_cache(&cs, "2026-04-02\n", day(2026, 5, 1)).unwrap();
    assert_eq!(c.last_updated, day(2026, 5, 1));
    assert_eq!(c.oldest_commit, day(2026, 4, 1));
    assert_eq!(c.first_entry, day(2026, 4, 1));
    assert_eq!(c.authors, vec!["b@x".to_string(), "a@x".to_string()]);
    assert_eq!(
        c.entries,
        vec![
            DayEntry { delta: 0, commits: 1, merges: 1, authors: vec![1] },
            DayEntry { delta: 2, commits: 2, merges: 0, authors: vec![0, 1] },
        ]
    );
    assert_eq!(c.tags, vec![TagEntry { delta: 1, count: 1 }]);
    let m = activity_metrics_collector::gitcache::derive::derive(&c, day(2026, 5, 1), 30);
    assert_eq!((m.commits_all_time, m.contributors, m.tags), (3, 2, 1));
    assert_eq!(m.commits_recent, 3);
    assert_eq!(activity_metrics_collector::gitcache::derive::derive(&c, day(2026, 5, 1), 29).commits_recent, 2);
    assert_eq!(build_cache(&[], "", 0).err(), Some(BuildError::NoCommits));
    assert_eq!(build_cache(&cs, "x\n", 0).err(), Some(BuildError::BadTagDate));
}

#[test]
fn refresh_plans_and_outcomes() {
    let c = Cache {
        last_updated: 100,
        oldest_commit: 90,
        first_entry: 90,
        authors: vec![],
        entries: vec![],
        tags: vec![],
    };
    assert_eq!(plan_refresh(Some(&c), 100), RefreshPlan::Reuse);
    assert_eq!(plan_refresh(Some(&c), 101), RefreshPlan::CloneSince(100));
    assert_eq!(plan_refresh(None, 101), RefreshPlan::CloneAll);
    assert!(fits_calendar(&c));
    let far = Cache { first_entry: 5_373_484, tags: vec![TagEntry { delta: 1, count: 1 }], ..c.clone() };
    assert!(!fits_calendar(&far));

    let (noop, o) = finish_refresh(Some(c.clone()), None, 105, 0).unwrap();
    assert_eq!(o, CacheOutcome::Noop);
    assert_eq!(noop.last_updated, 105);
    let (cold, o) = finish_refresh(None, Some(c.clone()), 105, 42).unwrap();
    assert_eq!(o, CacheOutcome::Cold { bytes: 42 });
    assert_eq!(cold, c);
    let (_, o) = finish_refresh(Some(c.clone()), Some(c.clone()), 105, 7).unwrap();
    assert_eq!(o, CacheOutcome::Incremental { bytes: 7 });
    assert_eq!(finish_refresh(None, None, 105, 0).err(), Some(BuildError::NoCommits));
}

#[test]
fn clone_arguments() {
    assert_eq!(
        clone_args("https://x/y.git", None, "/tmp/d"),
        vec!["clone", "--filter=blob:none", "--bare", "https://x/y.git", "/tmp/d"]
    );
    assert_eq!(
        clone_args("u", Some(day(2026, 5, 25)), "d"),
        vec!["clone", "--filter=blob:none", "--bare", "--shallow-since=2026-05-25", "u", "d"]
    );
}

#[test]
fn cache_root_follows_xdg() {
    assert_eq!(
        cache_root(Some("/xdg"), Some("/home/u"), "/tmp"),
        "/xdg/activity-metrics-collector"
    );
    assert_eq!(
        cache_root(Some("relative"), Some("/home/u"), "/tmp"),
        "/home/u/.cache/activity-metrics-collector"
    );
    assert_eq!(cache_root(None, None, "/tmp"), "/tmp/activity-metrics-collector");
}
