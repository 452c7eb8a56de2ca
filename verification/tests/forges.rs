use activity_metrics_collector::forge::gitea::{
    closed_issues_url, gitea_metrics, pull_requests_page_url, pull_requests_url, repo_url,
    text_ge, GiteaRepo, RecentPulls,
};
use activity_metrics_collector::forge::gitlab::{
    gitlab_metrics, issues_statistics_url, merge_requests_url, project_id, project_url,
    recent_merge_requests_url, total_from_header, GitlabProject, IssueCounts,
};

#[test]
fn gitlab_escapes_the_project_path() {
    assert_eq!(project_id("group/sub/project"), "group%2Fsub%2Fproject");
    assert_eq!(project_id("plain"), "plain");
}

#[test]
fn gitlab_urls() {
    let base = "https://gitlab.com";
    assert_eq!(project_url(base, "a%2Fb"), "https://gitlab.com/api/v4/projects/a%2Fb");
    assert_eq!(
        issues_statistics_url(base, "a%2Fb"),
        "https://gitlab.com/api/v4/projects/a%2Fb/issues_statistics"
    );
    assert_eq!(
        merge_requests_url(base, "a%2Fb"),
        "https://gitlab.com/api/v4/projects/a%2Fb/merge_requests?state=all&per_page=1"
    );
    // 2451545 is 2000-01-01.
    assert_eq!(
        recent_merge_requests_url(base, "a%2Fb", 2_451_545),
        "https://gitlab.com/api/v4/projects/a%2Fb/merge_requests?state=all&created_after=2000-01-01T00:00:00Z&per_page=1"
    );
}

#[test]
fn totals_from_headers() {
    assert_eq!(total_from_header(Some("42")), 42);
    assert_eq!(total_from_header(Some("+7")), 7);
    assert_eq!(total_from_header(Some("x")), 0);
    assert_eq!(total_from_header(Some("-1")), 0);
    assert_eq!(total_from_header(None), 0);
}

#[test]
fn gitlab_metrics_from_answers() {
    let m = gitlab_metrics(
        &GitlabProject { star_count: 3, forks_count: 4 },
        &IssueCounts { opened: 5, closed: 6 },
        7,
        8,
    );
    assert_eq!(m.stars, 3);
    assert_eq!(m.issues_open, Some(5));
    assert_eq!(m.issues_closed, Some(6));
    assert!(!m.issues_disabled);
    assert_eq!(m.pull_requests_all_time, 7);
    assert_eq!(m.pull_requests_recent, Some(8));
}

#[test]
fn gitea_urls() {
    let base = "https://codeberg.org";
    assert_eq!(repo_url(base, "a/b"), "https://codeberg.org/api/v1/repos/a/b");
    assert_eq!(
        closed_issues_url(base, "a/b"),
        "https://codeberg.org/api/v1/repos/a/b/issues?state=closed&type=issues&limit=1"
    );
    assert_eq!(
        pull_requests_url(base, "a/b"),
        "https://codeberg.org/api/v1/repos/a/b/issues?type=pulls&state=all&limit=1"
    );
    assert_eq!(
        pull_requests_page_url(base, "a/b", 3),
        "https://codeberg.org/api/v1/repos/a/b/issues?type=pulls&state=all&limit=50&page=3"
    );
}

#[test]
fn text_order_is_the_str_order() {
    for (a, b) in [("2026-01-02", "2026-01-01"), ("a", "ab"), ("", ""), ("b", "a"), ("Z", "a")] {
        assert_eq!(text_ge(a, b), a >= b, "{a} {b}");
        assert_eq!(text_ge(b, a), b >= a, "{b} {a}");
    }
}

#[test]
fn recent_pull_walk_stops_at_the_cutoff() {
    let full: Vec<String> = (0..50).map(|_| "2026-03-01T10:00:00Z".to_string()).collect();
    let w = RecentPulls::start().step(&full, "2026-01-01");
    assert_eq!(w, RecentPulls { count: 50, next_page: Some(2) });
    let mixed = vec!["2026-02-01T00:00:00Z".to_string(), "2025-12-31T00:00:00Z".to_string()];
    let w = w.step(&mixed, "2026-01-01");
    assert_eq!(w, RecentPulls { count: 51, next_page: None });
    let short = vec!["2026-02-01T00:00:00Z".to_string()];
    assert_eq!(
        RecentPulls::start().step(&short, "2026-01-01"),
        RecentPulls { count: 1, next_page: None }
    );
    let last = RecentPulls { count: 0, next_page: Some(20) }.step(&full, "2026-01-01");
    assert_eq!(last, RecentPulls { count: 50, next_page: None });
}

#[test]
fn gitea_metrics_from_answers() {
    let m = gitea_metrics(
        &GiteaRepo { stars_count: 1, forks_count: 2, open_issues_count: 3 },
        4,
        5,
        6,
    );
    assert_eq!(m.issues_open, Some(3));
    assert_eq!(m.issues_closed, Some(4));
    assert_eq!(m.pull_requests_recent, Some(6));
}
