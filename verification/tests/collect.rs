use activity_metrics_collector::catalog::{
    catalog_analysis_url, catalogs_url, next_page_url, root_catalog_id, should_send_activity,
    software_analysis_url, software_list_url, CatalogError,
};
use activity_metrics_collector::collect::{
    all_metrics, batch_result, forge_base, forge_source, group_by_catalog, needs_root_aggregate,
    recent_cutoff, rest_result, summarize, ForgeSource,
};
use activity_metrics_collector::config::parse_dotenv;
use activity_metrics_collector::forge::{
    gitea_probe_url, gitlab_probe_url, plan_hosts, probe_message, record_probes, swagger_range,
    ForgeKind, ForgeMetrics, ForgeResult,
};
use activity_metrics_collector::gitcache::derive::GitMetrics;
use activity_metrics_collector::json::Json;
use activity_metrics_collector::metrics::SoftwareMetrics;
use activity_metrics_collector::runner::CacheStats;

fn obj(members: Vec<(&str, Json)>) -> Json {
    Json::Object(members.into_iter().map(|(k, v)| (k.to_string(), v)).collect())
}

fn s(x: &str) -> Json {
    Json::Str(x.to_string())
}

#[test]
fn catalog_urls() {
    let base = "https://api.example.org/v1";
    assert_eq!(
        software_list_url(base, None),
        "https://api.example.org/v1/software?page[size]=100"
    );
    assert_eq!(
        software_list_url(base, Some("c1")),
        "https://api.example.org/v1/catalogs/c1/software?page[size]=100"
    );
    assert_eq!(catalogs_url(base), "https://api.example.org/v1/catalogs?all=true");
    assert_eq!(
        software_analysis_url(base, "s1"),
        "https://api.example.org/v1/software/s1/analysis"
    );
    assert_eq!(
        catalog_analysis_url(base, "c1"),
        "https://api.example.org/v1/catalogs/c1/analysis"
    );
}

#[test]
fn next_links_resolve_against_the_current_page() {
    let current = "https://api.example.org/v1/software?page[size]=100";
    let page = obj(vec![("links", obj(vec![("next", s("?page[after]=abc"))]))]);
    assert_eq!(
        next_page_url(current, &page),
        Ok(Some("https://api.example.org/v1/software?page[after]=abc".to_string()))
    );
    let last = obj(vec![("links", obj(vec![("next", s(""))]))]);
    assert_eq!(next_page_url(current, &last), Ok(None));
    assert_eq!(next_page_url(current, &obj(vec![])), Ok(None));
    assert_eq!(
        next_page_url("not a url", &page),
        Err(CatalogError::BadNextLink)
    );
}

#[test]
fn the_root_catalog_is_marked_with_the_empty_set() {
    let page = obj(vec![(
        "data",
        Json::Array(vec![
            obj(vec![("id", s("a")), ("alternativeId", s("x"))]),
            obj(vec![("id", s("root")), ("alternativeId", s("\u{2205}"))]),
        ]),
    )]);
    assert_eq!(root_catalog_id(&page), Some("root".to_string()));
    let none = obj(vec![("data", Json::Array(vec![obj(vec![("id", s("a"))])]))]);
    assert_eq!(root_catalog_id(&none), None);
    assert_eq!(root_catalog_id(&obj(vec![])), None);
}

#[test]
fn a_failed_forge_keeps_stored_measurements() {
    let stored = obj(vec![("activity", obj(vec![("stars", Json::UInt(3))]))]);
    let empty = obj(vec![("activity", obj(vec![("stars", Json::Null)]))]);
    assert!(!should_send_activity(&ForgeResult::Failed, Some(&stored)));
    assert!(should_send_activity(&ForgeResult::Failed, Some(&empty)));
    assert!(should_send_activity(&ForgeResult::Failed, None));
    assert!(should_send_activity(&ForgeResult::Unsupported, Some(&stored)));
}

#[test]
fn hosts_are_classified_once() {
    let hosts: Vec<String> = ["github.com", "git.example.org", "github.com", "git.example.org", "gitlab.com"]
        .iter()
        .map(|h| h.to_string())
        .collect();
    let (mut known, unknown) = plan_hosts(&hosts, &[]);
    assert_eq!(unknown, vec!["git.example.org".to_string()]);
    assert_eq!(known.get("github.com"), Some(&ForgeKind::GitHub));
    assert_eq!(known.get("gitlab.com"), Some(&ForgeKind::GitLab));
    assert_eq!(known.len(), 2);
    record_probes(&mut known, &[("git.example.org".to_string(), Some(ForgeKind::Gitea))]);
    assert_eq!(known.get("git.example.org"), Some(&ForgeKind::Gitea));
    assert_eq!(
        forge_source(&known, "git.example.org"),
        ForgeSource::Rest(ForgeKind::Gitea)
    );
    assert_eq!(forge_source(&known, "github.com"), ForgeSource::Batch);
    assert_eq!(forge_source(&known, "elsewhere"), ForgeSource::NoForge);
    assert_eq!(
        probe_message("h", Some(ForgeKind::Gitea)),
        "detected forge: h speaks the gitea api"
    );
    assert_eq!(probe_message("h", None), "no forge api at h, git metrics only");
}

#[test]
fn forge_results_and_bases() {
    let m = ForgeMetrics {
        stars: 1,
        forks: 1,
        issues_open: None,
        issues_closed: None,
        issues_disabled: false,
        pull_requests_all_time: 0,
        pull_requests_recent: None,
    };
    assert_eq!(batch_result(Some(&m)), ForgeResult::Measured(m));
    assert_eq!(batch_result(None), ForgeResult::Unsupported);
    assert_eq!(rest_result(Some(m)), ForgeResult::Measured(m));
    assert_eq!(rest_result(None), ForgeResult::Failed);
    assert_eq!(forge_base(ForgeKind::GitHub, "github.com"), "https://api.github.com");
    assert_eq!(forge_base(ForgeKind::GitLab, "gitlab.gnome.org"), "https://gitlab.gnome.org");
    assert_eq!(recent_cutoff(2_451_545, 180), 2_451_365);
}

fn metrics(commits: u64) -> SoftwareMetrics {
    SoftwareMetrics {
        git: GitMetrics {
            contributors: 1,
            commits_all_time: commits,
            commits_recent: 0,
            tags: 0,
            oldest_commit: 2_451_545,
        },
        forge: ForgeResult::Unsupported,
        recent_days: 180,
    }
}

#[test]
fn groups_come_in_catalog_order() {
    let items = vec![
        (Some("b".to_string()), metrics(1)),
        (None, metrics(2)),
        (Some("a".to_string()), metrics(3)),
        (Some("b".to_string()), metrics(4)),
    ];
    let groups = group_by_catalog(&items, None);
    let keys: Vec<Option<String>> = groups.iter().map(|g| g.0.clone()).collect();
    assert_eq!(keys, vec![None, Some("a".to_string()), Some("b".to_string())]);
    let b: Vec<u64> = groups[2].1.iter().map(|m| m.git.commits_all_time).collect();
    assert_eq!(b, vec![1, 4]);
    assert!(needs_root_aggregate(None, &groups));
    assert!(!needs_root_aggregate(Some("a"), &groups));
    assert_eq!(all_metrics(&groups).len(), 4);

    let only = group_by_catalog(&items, Some("z"));
    assert_eq!(only.len(), 1);
    assert_eq!(only[0].0, Some("z".to_string()));
    assert_eq!(only[0].1.len(), 4);
    assert!(!needs_root_aggregate(None, &only));

    let summary = summarize(5, 4, CacheStats::default());
    assert_eq!((summary.processed, summary.failed), (4, 1));
}

#[test]
fn dotenv_lines() {
    let text = "# comment\nA=1\n  B = \"two words\" \nnot a setting\n=x\nC='3'\nD=\n";
    assert_eq!(
        parse_dotenv(text),
        vec![
            ("A".to_string(), "1".to_string()),
            ("B".to_string(), "two words".to_string()),
            ("C".to_string(), "3".to_string()),
            ("D".to_string(), "".to_string()),
        ]
    );
}

#[test]
fn probe_addresses() {
    assert_eq!(gitlab_probe_url("h"), "https://h/api/v4/version");
    assert_eq!(gitea_probe_url("h"), "https://h/swagger.v1.json");
    assert_eq!(swagger_range(), "bytes=0-1023");
}
