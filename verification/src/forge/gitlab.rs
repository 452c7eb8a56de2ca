//! GitLab: the REST requests for a project and what their answers make.
use vstd::prelude::*;

use crate::dates::{calendar_of, iso_date, iso_ymd_text, MAX_DAY, MIN_DAY};
use crate::forge::ForgeMetrics;
use crate::gitcache::JulianDay;
use crate::text::{chars_of, extend_chars, extend_str, parse_u64, string_of, u64_text_value};

verus! {

/// `s` with each `/` written as `%2F`.
pub open spec fn escape_slashes(s: Seq<char>) -> Seq<char>
    decreases s.len(),
{
    if s.len() == 0 {
        Seq::empty()
    } else {
        escape_slashes(s.drop_last()) + if s.last() == '/' {
            "%2F"@
        } else {
            seq![s.last()]
        }
    }
}

/// The project id GitLab takes in a path: the full name with its slashes
/// escaped (`full_name.replace('/', "%2F")`).
pub fn project_id(full_name: &str) -> (r: String)
    ensures
        r@ == escape_slashes(full_name@),
{
    let s = chars_of(full_name);
    let mut v: Vec<char> = Vec::new();
    let mut i: usize = 0;
    while i < s.len()
        invariant
            s@ == full_name@,
            i <= s@.len(),
            v@ == escape_slashes(s@.take(i as int)),
        decreases s.len() - i,
    {
        assert(s@.take(i + 1).drop_last() =~= s@.take(i as int));
        if s[i] == '/' {
            extend_str(&mut v, "%2F");
        } else {
            v.push(s[i]);
        }
        i += 1;
        assert(v@ =~= escape_slashes(s@.take(i as int)));
    }
    assert(s@.take(i as int) =~= s@);
    string_of(v.as_slice())
}

/// `base/api/v4/projects/{id}` followed by `tail`.
pub open spec fn project_path(base: Seq<char>, id: Seq<char>, tail: Seq<char>) -> Seq<char> {
    base + "/api/v4/projects/"@ + id + tail
}

fn project_url_with(base: &str, id: &str, tail: &[char]) -> (r: String)
    ensures
        r@ == project_path(base@, id@, tail@),
{
    let mut v: Vec<char> = Vec::new();
    extend_str(&mut v, base);
    extend_str(&mut v, "/api/v4/projects/");
    extend_str(&mut v, id);
    extend_chars(&mut v, tail);
    string_of(v.as_slice())
}

/// The project endpoint.
pub fn project_url(base: &str, id: &str) -> (r: String)
    ensures
        r@ == project_path(base@, id@, Seq::empty()),
{
    let tail: Vec<char> = Vec::new();
    project_url_with(base, id, tail.as_slice())
}

/// The issue statistics endpoint of a project.
pub fn issues_statistics_url(base: &str, id: &str) -> (r: String)
    ensures
        r@ == project_path(base@, id@, "/issues_statistics"@),
{
    let tail = chars_of("/issues_statistics");
    project_url_with(base, id, tail.as_slice())
}

/// One merge request of all states per page: the total is in `X-Total`.
pub fn merge_requests_url(base: &str, id: &str) -> (r: String)
    ensures
        r@ == project_path(base@, id@, "/merge_requests?state=all&per_page=1"@),
{
    let tail = chars_of("/merge_requests?state=all&per_page=1");
    project_url_with(base, id, tail.as_slice())
}

/// The merge requests created on or after `cutoff`, from its first second.
pub fn recent_merge_requests_url(base: &str, id: &str, cutoff: JulianDay) -> (r: String)
    requires
        MIN_DAY <= cutoff <= MAX_DAY,
    ensures
        calendar_of(cutoff) matches Some((y, m, d)) && r@ == project_path(
            base@,
            id@,
            "/merge_requests?state=all&created_after="@ + iso_ymd_text(y, m, d)
                + "T00:00:00Z&per_page=1"@,
        ),
{
    let mut tail: Vec<char> = Vec::new();
    extend_str(&mut tail, "/merge_requests?state=all&created_after=");
    match iso_date(cutoff) {
        Some(d) => extend_chars(&mut tail, d.as_slice()),
        None => {},
    }
    extend_str(&mut tail, "T00:00:00Z&per_page=1");
    project_url_with(base, id, tail.as_slice())
}

/// A total read from a pagination header: its value as a `u64`, 0 when
/// the header is missing or is not a number.
pub fn total_from_header(value: Option<&str>) -> (r: u64)
    ensures
        r == match value {
            Some(s) => match u64_text_value(s@) {
                Some(n) => n,
                None => 0,
            },
            None => 0,
        },
{
    match value {
        Some(s) => {
            let c = chars_of(s);
            match parse_u64(c.as_slice()) {
                Some(n) => n,
                None => 0,
            }
        },
        None => 0,
    }
}

/// What the project endpoint says.
#[derive(Clone, Copy, Debug, PartialEq, Eq)]
pub struct GitlabProject {
    pub star_count: u64,
    pub forks_count: u64,
}

/// The issue counts of the statistics endpoint.
#[derive(Clone, Copy, Debug, PartialEq, Eq)]
pub struct IssueCounts {
    pub opened: u64,
    pub closed: u64,
}

/// The metrics of the answers for one project.
pub fn gitlab_metrics(project: &GitlabProject, counts: &IssueCounts, pr_all: u64, pr_recent: u64) -> (r:
    ForgeMetrics)
    ensures
        r == (ForgeMetrics {
            stars: project.star_count,
            forks: project.forks_count,
            issues_open: Some(counts.opened),
            issues_closed: Some(counts.closed),
            issues_disabled: false,
            pull_requests_all_time: pr_all,
            pull_requests_recent: Some(pr_recent),
        }),
{
    ForgeMetrics {
        stars: project.star_count,
        forks: project.forks_count,
        issues_open: Some(counts.opened),
        issues_closed: Some(counts.closed),
        issues_disabled: false,
        pull_requests_all_time: pr_all,
        pull_requests_recent: Some(pr_recent),
    }
}

} // verus!
