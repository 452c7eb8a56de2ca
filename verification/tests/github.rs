use activity_metrics_collector::forge::github::{
    batch_query, closed_issues_query, default_true, issue_counts, pull_requests_query,
    recent_prs_query, recent_pull_requests_query, record_batch, record_recent, repo_url,
    rest_metrics, search_url, split_owner_name, GithubRepo, FORGE_FRAGMENT,
};
use activity_metrics_collector::forge::ForgeMetrics;
use activity_metrics_collector::json::Json;
use activity_metrics_collector::namemap::NameMap;

fn obj(members: Vec<(&str, Json)>) -> Json {
    Json::Object(members.into_iter().map(|(k, v)| (k.to_string(), v)).collect())
}

fn total(n: u64) -> Json {
    obj(vec![("totalCount", Json::UInt(n))])
}

#[test]
fn issue_counts_read_the_totals_when_the_tracker_is_on() {
    let repo = obj(vec![
        ("hasIssuesEnabled", Json::Bool(true)),
        ("openI", total(5)),
        ("closedI", total(140)),
    ]);
    assert_eq!(issue_counts(&repo), (Some(5), Some(140), false));
}

#[test]
fn issue_counts_are_none_when_the_tracker_is_off() {
    let repo = obj(vec![
        ("hasIssuesEnabled", Json::Bool(false)),
        ("openI", total(0)),
        ("closedI", total(0)),
    ]);
    assert_eq!(issue_counts(&repo), (None, None, true));
}

#[test]
fn issue_counts_default_to_on_when_the_flag_is_missing() {
    let repo = obj(vec![("openI", total(2)), ("closedI", total(3))]);
    assert_eq!(issue_counts(&repo), (Some(2), Some(3), false));
}

#[test]
fn missing_totals_read_as_zero() {
    let repo = obj(vec![("hasIssuesEnabled", Json::Bool(true))]);
    assert_eq!(issue_counts(&repo), (Some(0), Some(0), false));
}

#[test]
fn owner_and_name_need_exactly_one_slash() {
    let (o, n) = split_owner_name("opf/openproject").unwrap();
    assert_eq!(o.iter().collect::<String>(), "opf");
    assert_eq!(n.iter().collect::<String>(), "openproject");
    assert!(split_owner_name("noslash").is_none());
    assert!(split_owner_name("a/b/c").is_none());
}

#[test]
fn batch_query_aliases_each_splittable_name() {
    let chunk = vec!["a/b".to_string(), "bad".to_string(), "c/d".to_string()];
    let (q, vars) = batch_query(&chunk);
    assert_eq!(
        q,
        format!(
            "query batch($o0:String!,$n0:String!,$o2:String!,$n2:String!){{r0: repository(owner:$o0,name:$n0){{...S}} r2: repository(owner:$o2,name:$n2){{...S}} }} {}",
            FORGE_FRAGMENT
        )
    );
    assert_eq!(
        vars,
        vec![
            ("o0".to_string(), "a".to_string()),
            ("n0".to_string(), "b".to_string()),
            ("o2".to_string(), "c".to_string()),
            ("n2".to_string(), "d".to_string()),
        ]
    );
}

#[test]
fn batch_answer_is_read_per_alias() {
    let chunk = vec!["a/b".to_string(), "c/d".to_string()];
    let repo = obj(vec![
        ("stargazerCount", Json::UInt(7)),
        ("forkCount", Json::UInt(2)),
        ("hasIssuesEnabled", Json::Bool(false)),
        ("prAll", total(9)),
    ]);
    let body = obj(vec![("data", obj(vec![("r0", repo), ("r1", Json::Null)]))]);
    let mut out = NameMap::new();
    record_batch(&mut out, &chunk, &body);
    assert_eq!(out.len(), 1);
    let m = *out.get("a/b").unwrap();
    assert_eq!(
        m,
        ForgeMetrics {
            stars: 7,
            forks: 2,
            issues_open: None,
            issues_closed: None,
            issues_disabled: true,
            pull_requests_all_time: 9,
            pull_requests_recent: None,
        }
    );
    assert!(out.get("c/d").is_none());

    let search = obj(vec![(
        "data",
        obj(vec![
            ("s0", obj(vec![("issueCount", Json::UInt(4))])),
            ("s1", obj(vec![("issueCount", Json::UInt(6))])),
        ]),
    )]);
    record_recent(&mut out, &chunk, &search);
    assert_eq!(out.get("a/b").unwrap().pull_requests_recent, Some(4));
    assert!(out.get("c/d").is_none());
}

#[test]
fn recent_query_searches_each_repo() {
    let chunk = vec!["a/b".to_string()];
    assert_eq!(
        recent_prs_query(&chunk, "2026-01-02"),
        "query{s0: search(query:\"repo:a/b is:pr created:>=2026-01-02\",type:ISSUE,first:1){issueCount} }"
    );
}

#[test]
fn rest_requests_and_metrics() {
    assert_eq!(repo_url("https://api.github.com", "a/b"), "https://api.github.com/repos/a/b");
    assert_eq!(search_url("https://api.github.com"), "https://api.github.com/search/issues");
    assert_eq!(closed_issues_query("a/b"), "repo:a/b type:issue state:closed");
    assert_eq!(pull_requests_query("a/b"), "repo:a/b type:pr");
    // 2000-01-01 is Julian day 2451545.
    assert_eq!(
        recent_pull_requests_query("a/b", 2_451_545),
        "repo:a/b type:pr created:>=2000-01-01"
    );
    assert!(default_true());
    let on = GithubRepo {
        stargazers_count: 1,
        forks_count: 2,
        open_issues_count: 3,
        has_issues: true,
    };
    let m = rest_metrics(&on, 4, 5, 6);
    assert_eq!(m.issues_open, Some(3));
    assert_eq!(m.issues_closed, Some(4));
    assert!(!m.issues_disabled);
    assert_eq!(m.pull_requests_recent, Some(6));
    let off = GithubRepo { has_issues: false, ..on };
    let m = rest_metrics(&off, 4, 5, 6);
    assert_eq!((m.issues_open, m.issues_closed, m.issues_disabled), (None, None, true));
}
