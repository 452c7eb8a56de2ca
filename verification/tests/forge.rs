use activity_metrics_collector::forge::{
    looks_like_gitea, looks_like_gitlab, resolve_kind, retry_after_secs, retry_wait, rate_limited,
    ForgeKind,
};

#[test]
fn known_hosts_need_no_probe() {
    assert_eq!(resolve_kind("github.com", &[]), Some(ForgeKind::GitHub));
    assert_eq!(resolve_kind("gitlab.com", &[]), Some(ForgeKind::GitLab));
    assert_eq!(resolve_kind("example.com", &[]), None);
}

#[test]
fn configured_gitlab_host_overrides_the_probe() {
    let hosts = vec!["gitlab.example.org".to_string()];
    assert_eq!(
        resolve_kind("gitlab.example.org", &hosts),
        Some(ForgeKind::GitLab)
    );
}

#[test]
fn anonymous_gitlab_answers_401_json() {
    assert!(looks_like_gitlab(401, Some("application/json")));
    assert!(looks_like_gitlab(
        200,
        Some("application/json; charset=utf-8")
    ));
}

#[test]
fn a_json_404_is_not_a_gitlab() {
    assert!(!looks_like_gitlab(404, Some("application/json")));
    assert!(!looks_like_gitlab(401, Some("text/html")));
    assert!(!looks_like_gitlab(401, None));
}

#[test]
fn swagger_title_names_gitea_or_forgejo() {
    assert!(looks_like_gitea(
        r#"{"swagger": "2.0", "info": {"description": "This documentation describes the Gitea API.", "title": "Gitea API"}}"#
    ));
    assert!(looks_like_gitea(r#"{"info": {"title": "Forgejo API"}}"#));
}

#[test]
fn other_swagger_documents_are_not_gitea() {
    assert!(!looks_like_gitea(r#"{"info": {"title": "Some API"}}"#));
    assert!(!looks_like_gitea("<html>not found</html>"));
    assert!(!looks_like_gitea(""));
}

#[test]
fn content_type_is_matched_without_case() {
    assert!(looks_like_gitlab(200, Some("Application/JSON")));
}

#[test]
fn labels_name_the_api() {
    assert_eq!(ForgeKind::GitHub.label(), "github");
    assert_eq!(ForgeKind::GitLab.label(), "gitlab");
    assert_eq!(ForgeKind::Gitea.label(), "gitea");
}

#[test]
fn rate_limits_are_429_or_403_with_a_hint() {
    assert!(rate_limited(429, None, false));
    assert!(rate_limited(403, Some("0"), false));
    assert!(rate_limited(403, None, true));
    assert!(!rate_limited(403, Some("12"), false));
    assert!(!rate_limited(200, Some("0"), true));
}

#[test]
fn retry_after_wins_over_the_reset_time() {
    assert_eq!(retry_after_secs(Some("7"), Some("1000"), 900), Some(7));
    assert_eq!(retry_after_secs(Some("soon"), Some("1000"), 900), Some(100));
    assert_eq!(retry_after_secs(None, Some("+1000"), 900), Some(100));
    assert_eq!(retry_after_secs(None, Some("800"), 900), Some(1));
    assert_eq!(retry_after_secs(None, Some("x"), 900), None);
    assert_eq!(retry_after_secs(None, None, 900), None);
}

#[test]
fn retries_stop_at_the_limit() {
    assert_eq!(retry_wait(true, 0, 3, Some(5)), Some(5));
    assert_eq!(retry_wait(true, 0, 3, None), Some(60));
    assert_eq!(retry_wait(true, 3, 3, Some(5)), None);
    assert_eq!(retry_wait(false, 0, 3, Some(5)), None);
}
