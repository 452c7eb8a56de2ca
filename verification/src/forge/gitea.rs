//! Gitea and Forgejo: the REST requests for a repository, the walk over
//! its recent pull requests, and what the answers make.
use vstd::prelude::*;

use crate::forge::ForgeMetrics;
use crate::text::{chars_of, decimal, extend_str, push_decimal, string_of};

verus! {

/// Pages of pull requests walked when counting the recent ones. The
/// list endpoints have no created-after filter, so the collector reads
/// newest first and stops at the cutoff. 20 pages of 50 cover any
/// repository that opens fewer than 1000 pull requests per window.
/// Pull requests are read through the issues endpoint: /pulls computes
/// diff stats for every item and is an order of magnitude slower.
pub const MAX_PR_PAGES: u32 = 20;

/// Pull requests per page of the walk.
pub const PR_PAGE: u32 = 50;

/// `base/api/v1/repos/{full_name}` followed by `tail`.
pub open spec fn repo_path(base: Seq<char>, full_name: Seq<char>, tail: Seq<char>) -> Seq<char> {
    base + "/api/v1/repos/"@ + full_name + tail
}

fn repo_url_with(base: &str, full_name: &str, tail: &str) -> (r: Vec<char>)
    ensures
        r@ == repo_path(base@, full_name@, tail@),
{
    let mut v: Vec<char> = Vec::new();
    extend_str(&mut v, base);
    extend_str(&mut v, "/api/v1/repos/");
    extend_str(&mut v, full_name);
    extend_str(&mut v, tail);
    v
}

/// The repository endpoint.
pub fn repo_url(base: &str, full_name: &str) -> (r: String)
    ensures
        r@ == repo_path(base@, full_name@, ""@),
{
    let v = repo_url_with(base, full_name, "");
    string_of(v.as_slice())
}

/// One closed issue per page: the total is in `X-Total-Count`.
pub fn closed_issues_url(base: &str, full_name: &str) -> (r: String)
    ensures
        r@ == repo_path(base@, full_name@, "/issues?state=closed&type=issues&limit=1"@),
{
    let v = repo_url_with(base, full_name, "/issues?state=closed&type=issues&limit=1");
    string_of(v.as_slice())
}

/// One pull request of all states per page: the total is in
/// `X-Total-Count`.
pub fn pull_requests_url(base: &str, full_name: &str) -> (r: String)
    ensures
        r@ == repo_path(base@, full_name@, "/issues?type=pulls&state=all&limit=1"@),
{
    let v = repo_url_with(base, full_name, "/issues?type=pulls&state=all&limit=1");
    string_of(v.as_slice())
}

/// Page `page` of the pull requests, newest first, `PR_PAGE` per page.
pub fn pull_requests_page_url(base: &str, full_name: &str, page: u32) -> (r: String)
    ensures
        r@ == repo_path(base@, full_name@, "/issues?type=pulls&state=all&limit=50&page="@)
            + decimal(page as nat),
{
    let mut v = repo_url_with(base, full_name, "/issues?type=pulls&state=all&limit=50&page=");
    push_decimal(&mut v, page as u64);
    string_of(v.as_slice())
}

/// `a < b` in the order of `str`: lexicographic by character, which is
/// the order of their UTF-8 bytes.
pub open spec fn text_lt(a: Seq<char>, b: Seq<char>) -> bool
    decreases a.len(),
{
    if a.len() == 0 {
        b.len() > 0
    } else if b.len() == 0 {
        false
    } else if a[0] != b[0] {
        a[0] < b[0]
    } else {
        text_lt(a.drop_first(), b.drop_first())
    }
}

/// No text comes before itself.
pub proof fn lemma_text_lt_irreflexive(a: Seq<char>)
    ensures
        !text_lt(a, a),
    decreases a.len(),
{
    if a.len() > 0 {
        lemma_text_lt_irreflexive(a.drop_first());
    }
}

/// The order of texts is transitive.
pub proof fn lemma_text_lt_transitive(a: Seq<char>, b: Seq<char>, c: Seq<char>)
    requires
        text_lt(a, b),
        text_lt(b, c),
    ensures
        text_lt(a, c),
    decreases a.len(),
{
    if a.len() > 0 && b.len() > 0 && c.len() > 0 && a[0] == b[0] && b[0] == c[0] {
        lemma_text_lt_transitive(a.drop_first(), b.drop_first(), c.drop_first());
    }
}

/// Of two different texts one comes first.
pub proof fn lemma_text_lt_total(a: Seq<char>, b: Seq<char>)
    requires
        a != b,
    ensures
        text_lt(a, b) || text_lt(b, a),
    decreases a.len(),
{
    if a.len() > 0 && b.len() > 0 && a[0] == b[0] {
        if a.drop_first() == b.drop_first() {
            assert(a =~= seq![a[0]] + a.drop_first());
            assert(b =~= seq![b[0]] + b.drop_first());
        }
        lemma_text_lt_total(a.drop_first(), b.drop_first());
    } else if a.len() == 0 && b.len() == 0 {
        assert(a =~= b);
    }
}

/// `a >= b` on strings.
pub fn text_ge(a: &str, b: &str) -> (r: bool)
    ensures
        r == !text_lt(a@, b@),
{
    let x = chars_of(a);
    let y = chars_of(b);
    let mut i: usize = 0;
    assert(x@.skip(0) =~= x@ && y@.skip(0) =~= y@);
    while i < x.len() && i < y.len()
        invariant
            x@ == a@,
            y@ == b@,
            i <= x@.len(),
            i <= y@.len(),
            x@.take(i as int) == y@.take(i as int),
            text_lt(a@, b@) == text_lt(x@.skip(i as int), y@.skip(i as int)),
        decreases x.len() - i,
    {
        if x[i] != y[i] {
            assert(x@.skip(i as int)[0] == x@[i as int]);
            assert(y@.skip(i as int)[0] == y@[i as int]);
            return !(x[i] < y[i]);
        }
        assert(x@.skip(i as int).drop_first() =~= x@.skip(i + 1));
        assert(y@.skip(i as int).drop_first() =~= y@.skip(i + 1));
        assert(x@.take(i + 1) =~= x@.take(i as int).push(x@[i as int]));
        assert(y@.take(i + 1) =~= y@.take(i as int).push(y@[i as int]));
        i += 1;
    }
    !(i == x.len() && i < y.len())
}

/// How many of the creation times are on or after `cutoff`.
pub open spec fn count_recent(created: Seq<String>, cutoff: Seq<char>) -> nat
    decreases created.len(),
{
    if created.len() == 0 {
        0
    } else {
        count_recent(created.drop_last(), cutoff) + if !text_lt(created.last()@, cutoff) {
            1nat
        } else {
            0nat
        }
    }
}

/// The walk over the pull request pages: how many recent ones were seen,
/// and the page to read next, `None` once the walk is over.
#[derive(Clone, Copy, Debug, PartialEq, Eq)]
pub struct RecentPulls {
    pub count: u64,
    pub next_page: Option<u32>,
}

impl RecentPulls {
    /// Nothing seen yet; the first page comes next.
    pub fn start() -> (r: RecentPulls)
        ensures
            r == (RecentPulls { count: 0, next_page: Some(1) }),
    {
        RecentPulls { count: 0, next_page: Some(1) }
    }

    /// The walk after reading a page whose pull requests were created at
    /// `created` (`created_at`, newest first): it adds those on or after
    /// `cutoff` and stops at a page with an older one, at a short page,
    /// or after `MAX_PR_PAGES` pages.
    pub fn step(self, created: &[String], cutoff: &str) -> (r: RecentPulls)
        requires
            self.next_page is Some,
            self.count + created@.len() <= u64::MAX,
        ensures
            ({
                let recent = count_recent(created@, cutoff@);
                let page = self.next_page->0;
                &&& r.count == self.count + recent
                &&& r.next_page == if recent < created@.len() || created@.len() < PR_PAGE
                    || page >= MAX_PR_PAGES {
                    None::<u32>
                } else {
                    Some((page + 1) as u32)
                }
            }),
    {
        let page = match self.next_page {
            Some(p) => p,
            None => 0,
        };
        let mut recent: u64 = 0;
        let mut i: usize = 0;
        while i < created.len()
            invariant
                i <= created@.len(),
                recent == count_recent(created@.take(i as int), cutoff@),
                recent <= i,
            decreases created.len() - i,
        {
            assert(created@.take(i + 1).drop_last() =~= created@.take(i as int));
            if text_ge(created[i].as_str(), cutoff) {
                recent += 1;
            }
            i += 1;
        }
        assert(created@.take(i as int) =~= created@);
        let count = self.count + recent;
        let done = (recent as usize) < created.len() || created.len() < PR_PAGE as usize
            || page >= MAX_PR_PAGES;
        RecentPulls { count, next_page: if done { None } else { Some(page + 1) } }
    }
}

/// What the repository endpoint says.
#[derive(Clone, Copy, Debug, PartialEq, Eq)]
pub struct GiteaRepo {
    pub stars_count: u64,
    pub forks_count: u64,
    pub open_issues_count: u64,
}

/// The metrics of the answers for one repository.
pub fn gitea_metrics(repo: &GiteaRepo, issues_closed: u64, pr_all: u64, pr_recent: u64) -> (r:
    ForgeMetrics)
    ensures
        r == (ForgeMetrics {
            stars: repo.stars_count,
            forks: repo.forks_count,
            issues_open: Some(repo.open_issues_count),
            issues_closed: Some(issues_closed),
            issues_disabled: false,
            pull_requests_all_time: pr_all,
            pull_requests_recent: Some(pr_recent),
        }),
{
    ForgeMetrics {
        stars: repo.stars_count,
        forks: repo.forks_count,
        issues_open: Some(repo.open_issues_count),
        issues_closed: Some(issues_closed),
        issues_disabled: false,
        pull_requests_all_time: pr_all,
        pull_requests_recent: Some(pr_recent),
    }
}

} // verus!
