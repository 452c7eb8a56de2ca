use activity_metrics_collector::catalog::Software;
use activity_metrics_collector::gitcache::CacheOutcome;
use activity_metrics_collector::runner::{declared_repo_url, forge_target, human_bytes, parse_repo, CacheStats};

fn sw(url: &str, yml: Option<&str>) -> Software {
    Software {
        id: "x".into(),
        url: url.into(),
        catalog_id: None,
        publiccode_yml: yml.map(str::to_string),
    }
}

#[test]
fn declared_url_reads_only_the_root_key() {
    let yml = "name: Thing\nurl: https://github.com/org/repo\nlegal:\n  url: https://example.org/licence\n";
    assert_eq!(
        declared_repo_url(yml).as_deref(),
        Some("https://github.com/org/repo")
    );
}

#[test]
fn declared_url_absent_or_empty_is_none() {
    assert_eq!(declared_repo_url("name: Thing\n"), None);
    assert_eq!(declared_repo_url("url:   \n"), None);
}

#[test]
fn declared_url_drops_quotes() {
    assert_eq!(
        declared_repo_url("url: \"https://gitlab.com/a/b\"\r\n").as_deref(),
        Some("https://gitlab.com/a/b")
    );
    assert_eq!(declared_repo_url("url: 'x'").as_deref(), Some("x"));
}

#[test]
fn mirror_follows_the_declared_home() {
    let s = sw(
        "https://gitlab.opencode.de/org/mirror.git",
        Some("url: https://github.com/opf/openproject\n"),
    );
    assert_eq!(
        forge_target(&s),
        Some(("github.com".into(), "opf/openproject".into()))
    );
}

#[test]
fn mirror_declaring_its_own_host_stays_put() {
    let s = sw(
        "https://gitlab.opencode.de/org/thing.git",
        Some("url: https://gitlab.opencode.de/org/thing\n"),
    );
    assert_eq!(
        forge_target(&s),
        Some(("gitlab.opencode.de".into(), "org/thing".into()))
    );
}

#[test]
fn mirror_without_publiccode_stays_put() {
    let s = sw("https://gitlab.opencode.de/org/thing.git", None);
    assert_eq!(
        forge_target(&s),
        Some(("gitlab.opencode.de".into(), "org/thing".into()))
    );
}

#[test]
fn a_declared_homepage_is_not_a_repository() {
    let s = sw(
        "https://gitlab.opencode.de/org/thing.git",
        Some("url: https://www.digitale-doerfer.de\n"),
    );
    assert_eq!(
        forge_target(&s),
        Some(("gitlab.opencode.de".into(), "org/thing".into()))
    );
}

#[test]
fn other_hosts_never_redirect() {
    let s = sw(
        "https://github.com/org/repo.git",
        Some("url: https://gitlab.com/other/repo\n"),
    );
    assert_eq!(
        forge_target(&s),
        Some(("github.com".into(), "org/repo".into()))
    );
}

#[test]
fn repo_urls_lose_slashes_and_git_suffixes() {
    assert_eq!(
        parse_repo("https://gitlab.com/group/sub/repo.git/"),
        Some(("gitlab.com".into(), "group/sub/repo".into()))
    );
    assert_eq!(parse_repo("not a url"), None);
    assert_eq!(forge_target(&sw("mailto:someone@example.org", None)), None);
}

#[test]
fn cache_stats_folds_outcomes() {
    let outcomes = [
        CacheOutcome::Hit,
        CacheOutcome::Hit,
        CacheOutcome::Cold { bytes: 1000 },
        CacheOutcome::Incremental { bytes: 1536 },
        CacheOutcome::Noop,
    ];

    let mut stats = CacheStats::default();
    for o in &outcomes {
        stats.record(o);
    }

    assert_eq!(
        stats,
        CacheStats {
            hit: 2,
            incremental: 1,
            cold: 1,
            noop: 1,
            bytes: 2536,
        }
    );
}

#[test]
fn cache_stats_display() {
    let stats = CacheStats {
        hit: 2,
        incremental: 1,
        cold: 1,
        noop: 1,
        bytes: 2536,
    };

    assert_eq!(
        stats.describe(),
        "cache: 2 hit, 1 incremental, 1 cold, 1 noop, 2.5 KB fetched"
    );
}

#[test]
fn human_bytes_scales_by_magnitude() {
    assert_eq!(human_bytes(0), "0 B");
    assert_eq!(human_bytes(512), "512 B");
    assert_eq!(human_bytes(1536), "1.5 KB");
    assert_eq!(human_bytes(5_767_168), "5.5 MB");
    assert_eq!(human_bytes(2 * 1024 * 1024 * 1024), "2.0 GB");
}

#[test]
fn human_bytes_rounds_like_float_formatting() {
    for b in [1023u64, 1024, 1280, 1300, 1792, 10 * 1024 * 1024 + 52429, u64::MAX, (1u64 << 53) + 1, 999_999_999_999] {
        let unit = if b < 1024 * 1024 { 1024.0 } else if b < 1024 * 1024 * 1024 { 1048576.0 } else { 1073741824.0 };
        let expected = if b < 1024 {
            format!("{b} B")
        } else {
            let suffix = if b < 1024 * 1024 { "KB" } else if b < 1024 * 1024 * 1024 { "MB" } else { "GB" };
            format!("{:.1} {suffix}", b as f64 / unit)
        };
        assert_eq!(human_bytes(b), expected, "{b}");
    }
}
