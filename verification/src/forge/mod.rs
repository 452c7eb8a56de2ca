//! Forge kinds, forge metrics and the rules for talking to forge APIs.
use vstd::prelude::*;

use crate::text::{
    ascii_lower_seq, chars_of, contains, contains_seq, i64_text_value, parse_i64, parse_u64,
    str_eq, to_ascii_lowercase, u64_text_value,
};

use crate::namemap::NameMap;

pub mod gitea;
pub mod github;
pub mod gitlab;

verus! {

/// What a forge API says about a repository.
#[derive(Clone, Copy, Debug, PartialEq, Eq)]
pub struct ForgeMetrics {
    pub stars: u64,
    pub forks: u64,
    /// `None` when the issue tracker is off.
    pub issues_open: Option<u64>,
    /// `None` when the issue tracker is off.
    pub issues_closed: Option<u64>,
    pub issues_disabled: bool,
    pub pull_requests_all_time: u64,
    pub pull_requests_recent: Option<u64>,
}

/// The outcome of asking a forge.
#[derive(Clone, Copy, Debug, PartialEq, Eq)]
pub enum ForgeResult {
    Unsupported,
    Failed,
    Measured(ForgeMetrics),
}

/// The APIs the collector speaks.
#[derive(Clone, Copy, Debug, PartialEq, Eq, Hash, Structural)]
pub enum ForgeKind {
    GitHub,
    GitLab,
    /// Gitea and Forgejo share the same API.
    Gitea,
}

impl ForgeKind {
    pub open spec fn spec_label(self) -> Seq<char> {
        match self {
            ForgeKind::GitHub => "github"@,
            ForgeKind::GitLab => "gitlab"@,
            ForgeKind::Gitea => "gitea"@,
        }
    }

    /// The name used in log lines.
    pub fn label(self) -> (r: &'static str)
        ensures
            r@ == self.spec_label(),
    {
        match self {
            ForgeKind::GitHub => "github",
            ForgeKind::GitLab => "gitlab",
            ForgeKind::Gitea => "gitea",
        }
    }
}

/// The kind of a host known without asking it: github.com, gitlab.com and
/// the configured GitLab hosts.
pub open spec fn known_kind(host: Seq<char>, gitlab_hosts: Seq<Seq<char>>) -> Option<ForgeKind> {
    if host == "github.com"@ {
        Some(ForgeKind::GitHub)
    } else if host == "gitlab.com"@ || gitlab_hosts.contains(host) {
        Some(ForgeKind::GitLab)
    } else {
        None
    }
}

/// Every configured GitLab host is known to speak GitLab, wherever it
/// stands in the list, unless it is github.com.
pub proof fn lemma_configured_hosts_are_gitlab(host: Seq<char>, gitlab_hosts: Seq<Seq<char>>, i: int)
    requires
        0 <= i < gitlab_hosts.len(),
        gitlab_hosts[i] == host,
        host != "github.com"@,
    ensures
        known_kind(host, gitlab_hosts) == Some(ForgeKind::GitLab),
{
    assert(gitlab_hosts.contains(host));
}

/// github.com is GitHub, gitlab.com is GitLab, and a host that is neither
/// of them nor configured is not known: it is left to the probe.
pub proof fn lemma_known_hosts(host: Seq<char>, gitlab_hosts: Seq<Seq<char>>)
    ensures
        known_kind("github.com"@, gitlab_hosts) == Some(ForgeKind::GitHub),
        host == "gitlab.com"@ && host != "github.com"@ ==> known_kind(host, gitlab_hosts) == Some(
            ForgeKind::GitLab,
        ),
        host != "github.com"@ && host != "gitlab.com"@ && (forall|i: int|
            0 <= i < gitlab_hosts.len() ==> gitlab_hosts[i] != host) ==> known_kind(
            host,
            gitlab_hosts,
        ) is None,
{
}

/// Resolves the hosts the collector knows without asking them anything.
/// `gitlab_hosts` short circuits the probe, for an instance that refuses
/// the version endpoint or is unreachable from where this runs.
pub fn resolve_kind(host: &str, gitlab_hosts: &[String]) -> (r: Option<ForgeKind>)
    ensures
        r == known_kind(host@, gitlab_hosts@.map_values(|h: String| h@)),
{
    let ghost hosts = gitlab_hosts@.map_values(|h: String| h@);
    if str_eq(host, "github.com") {
        return Some(ForgeKind::GitHub);
    }
    if str_eq(host, "gitlab.com") {
        return Some(ForgeKind::GitLab);
    }
    for i in 0..gitlab_hosts.len()
        invariant
            hosts == gitlab_hosts@.map_values(|h: String| h@),
            host@ != "github.com"@,
            forall|k: int| 0 <= k < i ==> hosts[k] != host@,
    {
        if str_eq(gitlab_hosts[i].as_str(), host) {
            assert(hosts[i as int] == host@);
            assert(hosts.contains(host@));
            return Some(ForgeKind::GitLab);
        }
    }
    assert(!hosts.contains(host@)) by {
        if hosts.contains(host@) {
            let k = choose|k: int| 0 <= k < hosts.len() && hosts[k] == host@;
        }
    }
    None
}

/// What the GitLab probe accepts: status 200 or 401 with a JSON content type.
pub open spec fn gitlab_answer(status: u16, content_type: Option<Seq<char>>) -> bool {
    (status == 200 || status == 401) && match content_type {
        Some(c) => contains_seq(ascii_lower_seq(c), "json"@),
        None => false,
    }
}

/// GitLab answers /api/v4/version on every instance, with 401 when the
/// caller is anonymous. Both the status and the JSON content type are
/// required: a plain 404 page or a forge that returns JSON errors for
/// unknown paths would otherwise pass.
pub fn looks_like_gitlab(status: u16, content_type: Option<&str>) -> (r: bool)
    ensures
        r == gitlab_answer(
            status,
            match content_type {
                Some(c) => Some(c@),
                None => None,
            },
        ),
{
    if status != 200 && status != 401 {
        return false;
    }
    match content_type {
        Some(c) => {
            let lower = to_ascii_lowercase(chars_of(c).as_slice());
            let json = chars_of("json");
            contains(lower.as_slice(), json.as_slice())
        },
        None => false,
    }
}

/// What the Gitea probe accepts: the swagger title names Gitea or Forgejo.
pub open spec fn gitea_swagger(body: Seq<char>) -> bool {
    contains_seq(body, "\"Gitea API\""@) || contains_seq(body, "\"Forgejo API\""@)
}

/// Gitea and Forgejo both serve their OpenAPI document at /swagger.v1.json
/// and name themselves in its title. Forgejo carries the Gitea API
/// unchanged, so one kind covers both.
pub fn looks_like_gitea(body: &str) -> (r: bool)
    ensures
        r == gitea_swagger(body@),
{
    let b = chars_of(body);
    let gitea = chars_of("\"Gitea API\"");
    if contains(b.as_slice(), gitea.as_slice()) {
        return true;
    }
    let forgejo = chars_of("\"Forgejo API\"");
    contains(b.as_slice(), forgejo.as_slice())
}

/// How much of the swagger document to read: the title sits in the
/// first few hundred bytes and the whole file is several hundred KB.
pub const SWAGGER_PREFIX: usize = 1024;

/// The first `max` bytes of a response body.
pub fn truncate_body(buf: &mut Vec<u8>, max: usize)
    ensures
        final(buf)@ == if old(buf)@.len() <= max {
            old(buf)@
        } else {
            old(buf)@.take(max as int)
        },
{
    buf.truncate(max);
    assert(final(buf)@ =~= if old(buf)@.len() <= max {
        old(buf)@
    } else {
        old(buf)@.take(max as int)
    });
}

/// A response is rate limited: HTTP 429, or a 403 whose
/// `x-ratelimit-remaining` is `0` or that carries `retry-after`.
pub open spec fn is_rate_limited(
    status: u16,
    ratelimit_remaining: Option<Seq<char>>,
    has_retry_after: bool,
) -> bool {
    status == 429 || (status == 403 && (ratelimit_remaining == Some("0"@) || has_retry_after))
}

/// Whether a response asks the caller to slow down.
pub fn rate_limited(status: u16, ratelimit_remaining: Option<&str>, has_retry_after: bool) -> (r:
    bool)
    ensures
        r == is_rate_limited(
            status,
            match ratelimit_remaining {
                Some(v) => Some(v@),
                None => None,
            },
            has_retry_after,
        ),
{
    let remaining_zero = match ratelimit_remaining {
        Some(v) => str_eq(v, "0"),
        None => false,
    };
    status == 429 || (status == 403 && (remaining_zero || has_retry_after))
}

/// The seconds to wait: `retry-after` when it is a number, otherwise the
/// time until `x-ratelimit-reset` (a Unix time), at least one second.
pub open spec fn retry_after_spec(
    retry_after: Option<Seq<char>>,
    ratelimit_reset: Option<Seq<char>>,
    now: i64,
) -> Option<u64> {
    match retry_after {
        Some(ra) if u64_text_value(ra) is Some => u64_text_value(ra),
        _ => match ratelimit_reset {
            Some(rs) => match i64_text_value(rs) {
                Some(reset) => Some(
                    (if reset - now > 1 {
                        reset - now
                    } else {
                        1
                    }) as u64,
                ),
                None => None,
            },
            None => None,
        },
    }
}

/// The subtraction of `now` from the reset time does not overflow.
pub open spec fn reset_fits(ratelimit_reset: Option<Seq<char>>, now: i64) -> bool {
    match ratelimit_reset {
        Some(rs) => match i64_text_value(rs) {
            Some(reset) => i64::MIN <= reset - now <= i64::MAX,
            None => true,
        },
        None => true,
    }
}

/// How long to wait before retrying a rate-limited request, per
/// `retry-after` or `x-ratelimit-reset`.
pub fn retry_after_secs(retry_after: Option<&str>, ratelimit_reset: Option<&str>, now: i64) -> (r:
    Option<u64>)
    requires
        reset_fits(
            match ratelimit_reset {
                Some(v) => Some(v@),
                None => None,
            },
            now,
        ),
    ensures
        r == retry_after_spec(
            match retry_after {
                Some(v) => Some(v@),
                None => None,
            },
            match ratelimit_reset {
                Some(v) => Some(v@),
                None => None,
            },
            now,
        ),
{
    if let Some(ra) = retry_after {
        let c = chars_of(ra);
        if let Some(n) = parse_u64(c.as_slice()) {
            return Some(n);
        }
    }
    match ratelimit_reset {
        Some(rs) => {
            let c = chars_of(rs);
            match parse_i64(c.as_slice()) {
                Some(reset) => {
                    let d = reset - now;
                    Some(if d > 1 { d as u64 } else { 1 })
                },
                None => None,
            }
        },
        None => None,
    }
}

/// Seconds to wait before the next attempt, or `None` when the response is
/// final: it is not rate limited, or `attempt` has reached `max_retries`.
/// Without a usable hint the wait is 60 seconds.
pub fn retry_wait(rate_limited: bool, attempt: u32, max_retries: u32, hint: Option<u64>) -> (r:
    Option<u64>)
    ensures
        r == if !rate_limited || attempt >= max_retries {
            None
        } else {
            Some(
                match hint {
                    Some(w) => w,
                    None => 60,
                },
            )
        },
{
    if !rate_limited || attempt >= max_retries {
        return None;
    }
    match hint {
        Some(w) => Some(w),
        None => Some(60),
    }
}

/// The hosts after looking at the first `n` of `hosts`, each once: the
/// kinds known without asking, and the hosts left to probe in the order
/// they first come.
pub open spec fn host_plan(hosts: Seq<String>, gitlab_hosts: Seq<Seq<char>>, n: nat) -> (
    Map<Seq<char>, ForgeKind>,
    Seq<Seq<char>>,
)
    decreases n,
{
    if n == 0 {
        (Map::empty(), Seq::empty())
    } else {
        let (known, unknown) = host_plan(hosts, gitlab_hosts, (n - 1) as nat);
        let h = hosts[n - 1]@;
        if known.contains_key(h) || unknown.contains(h) {
            (known, unknown)
        } else {
            match known_kind(h, gitlab_hosts) {
                Some(k) => (known.insert(h, k), unknown),
                None => (known, unknown.push(h)),
            }
        }
    }
}

/// Classifies every host once without asking it anything: the kinds of
/// the hosts known already, and the other hosts, to be probed.
/// Self-hosted GitLab, Gitea and Forgejo are the common case in a
/// federated catalog and there is no list of instances to maintain
/// anywhere, so asking the host is the only way to avoid silently
/// dropping its metrics.
pub fn plan_hosts(hosts: &[String], gitlab_hosts: &[String]) -> (r: (NameMap<ForgeKind>, Vec<String>))
    ensures
        r.0.wf(),
        r.0.as_map() == host_plan(hosts@, gitlab_hosts@.map_values(|h: String| h@), hosts@.len()).0,
        r.1@.map_values(|h: String| h@) == host_plan(
            hosts@,
            gitlab_hosts@.map_values(|h: String| h@),
            hosts@.len(),
        ).1,
{
    let ghost gh = gitlab_hosts@.map_values(|h: String| h@);
    let mut known: NameMap<ForgeKind> = NameMap::new();
    let mut unknown: Vec<String> = Vec::new();
    let mut i: usize = 0;
    while i < hosts.len()
        invariant
            i <= hosts@.len(),
            gh == gitlab_hosts@.map_values(|h: String| h@),
            known.wf(),
            known.as_map() == host_plan(hosts@, gh, i as nat).0,
            unknown@.map_values(|h: String| h@) == host_plan(hosts@, gh, i as nat).1,
        decreases hosts.len() - i,
    {
        let ghost u = unknown@.map_values(|h: String| h@);
        let host = &hosts[i];
        let mut seen = known.get(host.as_str()).is_some();
        let mut j: usize = 0;
        while j < unknown.len() && !seen
            invariant
                j <= unknown@.len(),
                u == unknown@.map_values(|h: String| h@),
                seen ==> known.as_map().contains_key(host@) || u.contains(host@),
                !seen ==> !known.as_map().contains_key(host@) && forall|k: int|
                    0 <= k < j ==> u[k] != host@,
            decreases unknown.len() - j,
        {
            if str_eq(unknown[j].as_str(), host.as_str()) {
                assert(u[j as int] == host@);
                seen = true;
            }
            j += 1;
        }
        proof {
            if !seen {
                assert(!u.contains(host@)) by {
                    if u.contains(host@) {
                        let k = choose|k: int| 0 <= k < u.len() && u[k] == host@;
                    }
                }
            }
        }
        if !seen {
            match resolve_kind(host.as_str(), gitlab_hosts) {
                Some(kind) => {
                    known.insert(host.clone(), kind);
                },
                None => {
                    unknown.push(host.clone());
                    assert(unknown@.map_values(|h: String| h@) =~= u.push(host@));
                },
            }
        }
        i += 1;
    }
    (known, unknown)
}

/// Each host is planned once: a host the collector knows is never probed,
/// no host is probed twice, and every host ends up known or probed.
pub proof fn lemma_hosts_planned_once(hosts: Seq<String>, gitlab_hosts: Seq<Seq<char>>, n: nat)
    requires
        n <= hosts.len(),
    ensures
        ({
            let (known, unknown) = host_plan(hosts, gitlab_hosts, n);
            &&& unknown.no_duplicates()
            &&& forall|h: Seq<char>|
                unknown.contains(h) ==> !known.contains_key(h) && known_kind(h, gitlab_hosts) is None
            &&& forall|h: Seq<char>|
                known.contains_key(h) ==> known_kind(h, gitlab_hosts) == Some(known[h])
            &&& forall|i: int|
                0 <= i < n ==> known.contains_key(hosts[i]@) || unknown.contains(hosts[i]@)
        }),
    decreases n,
{
    if n > 0 {
        lemma_hosts_planned_once(hosts, gitlab_hosts, (n - 1) as nat);
        let (known, unknown) = host_plan(hosts, gitlab_hosts, (n - 1) as nat);
        let h = hosts[n - 1]@;
        if !(known.contains_key(h) || unknown.contains(h)) {
            if known_kind(h, gitlab_hosts) is None {
                let u = unknown.push(h);
                assert forall|x: Seq<char>| u.contains(x) <==> (unknown.contains(x) || x == h) by {
                    if u.contains(x) {
                        let k = choose|k: int| 0 <= k < u.len() && u[k] == x;
                        if k < unknown.len() {
                            assert(unknown[k] == x);
                        }
                    }
                    if unknown.contains(x) {
                        let k = choose|k: int| 0 <= k < unknown.len() && unknown[k] == x;
                        assert(u[k] == x);
                    }
                    if x == h {
                        assert(u[unknown.len() as int] == x);
                    }
                }
                assert forall|i: int, j: int| 0 <= i < u.len() && 0 <= j < u.len() && i != j implies u[i]
                    != u[j] by {
                    if i < unknown.len() && j < unknown.len() {
                    } else if i < unknown.len() {
                        assert(unknown.contains(u[i]));
                    } else if j < unknown.len() {
                        assert(unknown.contains(u[j]));
                    }
                }
            }
        }
    }
}

/// The kinds after recording the first `n` probe answers: a host that
/// answered gets its kind.
pub open spec fn probes_recorded(
    known: Map<Seq<char>, ForgeKind>,
    probed: Seq<(String, Option<ForgeKind>)>,
    n: nat,
) -> Map<Seq<char>, ForgeKind>
    decreases n,
{
    if n == 0 {
        known
    } else {
        let prev = probes_recorded(known, probed, (n - 1) as nat);
        match probed[n - 1].1 {
            Some(k) => prev.insert(probed[n - 1].0@, k),
            None => prev,
        }
    }
}

/// Adds the kinds the probes found.
pub fn record_probes(known: &mut NameMap<ForgeKind>, probed: &[(String, Option<ForgeKind>)])
    requires
        old(known).wf(),
    ensures
        final(known).wf(),
        final(known).as_map() == probes_recorded(old(known).as_map(), probed@, probed@.len()),
{
    let ghost start = known.as_map();
    let mut i: usize = 0;
    while i < probed.len()
        invariant
            i <= probed@.len(),
            known.wf(),
            known.as_map() == probes_recorded(start, probed@, i as nat),
        decreases probed.len() - i,
    {
        match probed[i].1 {
            Some(k) => known.insert(probed[i].0.clone(), k),
            None => {},
        }
        i += 1;
    }
}

/// What a probe of `host` found, as a log line.
pub fn probe_message(host: &str, kind: Option<ForgeKind>) -> (r: String)
    ensures
        r@ == match kind {
            Some(k) => "detected forge: "@ + host@ + " speaks the "@ + k.spec_label() + " api"@,
            None => "no forge api at "@ + host@ + ", git metrics only"@,
        },
{
    let mut v: Vec<char> = Vec::new();
    match kind {
        Some(k) => {
            crate::text::extend_str(&mut v, "detected forge: ");
            crate::text::extend_str(&mut v, host);
            crate::text::extend_str(&mut v, " speaks the ");
            crate::text::extend_str(&mut v, k.label());
            crate::text::extend_str(&mut v, " api");
        },
        None => {
            crate::text::extend_str(&mut v, "no forge api at ");
            crate::text::extend_str(&mut v, host);
            crate::text::extend_str(&mut v, ", git metrics only");
        },
    }
    crate::text::string_of(v.as_slice())
}

/// The version endpoint every GitLab answers.
pub fn gitlab_probe_url(host: &str) -> (r: String)
    ensures
        r@ == "https://"@ + host@ + "/api/v4/version"@,
{
    let mut v: Vec<char> = Vec::new();
    crate::text::extend_str(&mut v, "https://");
    crate::text::extend_str(&mut v, host);
    crate::text::extend_str(&mut v, "/api/v4/version");
    crate::text::string_of(v.as_slice())
}

/// The OpenAPI document Gitea and Forgejo serve.
pub fn gitea_probe_url(host: &str) -> (r: String)
    ensures
        r@ == "https://"@ + host@ + "/swagger.v1.json"@,
{
    let mut v: Vec<char> = Vec::new();
    crate::text::extend_str(&mut v, "https://");
    crate::text::extend_str(&mut v, host);
    crate::text::extend_str(&mut v, "/swagger.v1.json");
    crate::text::string_of(v.as_slice())
}

/// The `Range` header asking for the first `SWAGGER_PREFIX` bytes.
pub fn swagger_range() -> (r: String)
    ensures
        r@ == "bytes=0-"@ + crate::text::decimal((SWAGGER_PREFIX - 1) as nat),
{
    let mut v: Vec<char> = Vec::new();
    crate::text::extend_str(&mut v, "bytes=0-");
    crate::text::push_decimal(&mut v, (SWAGGER_PREFIX - 1) as u64);
    crate::text::string_of(v.as_slice())
}

} // verus!
