//! GitHub: the GraphQL batch queries and what their answers hold, and the
//! REST requests for a single repository.
use vstd::prelude::*;

use crate::dates::{calendar_of, iso_date, iso_ymd_text, MAX_DAY, MIN_DAY};
use crate::forge::ForgeMetrics;
use crate::gitcache::JulianDay;
use crate::json::{get_u64, get_u64_in, Json};
use crate::namemap::NameMap;
use crate::text::{decimal, extend_chars, extend_str, push_decimal, string_of};

verus! {

/// The fields read for every repository of a batch.
pub const FORGE_FRAGMENT: &'static str = "fragment S on Repository { stargazerCount forkCount hasIssuesEnabled openI: issues(states: OPEN) { totalCount } closedI: issues(states: CLOSED) { totalCount } prAll: pullRequests { totalCount } }";

/// Each repo in a batch is an aliased `repository` lookup. A smaller
/// batch keeps the query well under GitHub's GraphQL complexity limit
/// and limits how many repos lose their metrics when a chunk fails.
pub const FORGE_CHUNK: usize = 50;

/// Recent pull requests need a date-filtered `search`, which is far more
/// expensive than a `repository` lookup, so they run in their own smaller
/// batches to keep any single query under GitHub's complexity limit.
pub const SEARCH_CHUNK: usize = 20;

/// `value.as_u64().unwrap_or(0)`.
pub open spec fn u64_or_zero(v: Json) -> u64 {
    match v.u64_of() {
        Some(n) => n,
        None => 0,
    }
}

/// Open and closed issue totals, `None` when the tracker is off, and
/// whether it is explicitly off. An absent flag means an older GHES
/// schema: the tracker is taken to be on.
pub open spec fn issue_counts_of(repo: Json) -> (Option<u64>, Option<u64>, bool) {
    let flag = repo.at("hasIssuesEnabled"@).bool_of();
    let enabled = match flag {
        Some(b) => b,
        None => true,
    };
    (
        if enabled {
            Some(u64_or_zero(repo.at("openI"@).at("totalCount"@)))
        } else {
            None
        },
        if enabled {
            Some(u64_or_zero(repo.at("closedI"@).at("totalCount"@)))
        } else {
            None
        },
        flag == Some(false),
    )
}

/// Open and closed issue totals and whether the tracker is off. An
/// absent flag means an older GHES schema: the tracker is taken to be
/// on rather than silently dropping the metrics.
pub fn issue_counts(repo: &Json) -> (r: (Option<u64>, Option<u64>, bool))
    ensures
        r == issue_counts_of(*repo),
{
    let flag = match repo.get("hasIssuesEnabled") {
        Some(v) => v.as_bool(),
        None => None,
    };
    let enabled = match flag {
        Some(b) => b,
        None => true,
    };
    let open = if enabled {
        Some(
            match get_u64_in(repo, "openI", "totalCount") {
                Some(n) => n,
                None => 0,
            },
        )
    } else {
        None
    };
    let closed = if enabled {
        Some(
            match get_u64_in(repo, "closedI", "totalCount") {
                Some(n) => n,
                None => 0,
            },
        )
    } else {
        None
    };
    let off = match flag {
        Some(b) => !b,
        None => false,
    };
    (open, closed, off)
}

/// `s` holds exactly one `/`, at `k`.
pub open spec fn single_slash_at(s: Seq<char>, k: int) -> bool {
    &&& 0 <= k < s.len()
    &&& s[k] == '/'
    &&& forall|i: int| 0 <= i < s.len() && i != k ==> s[i] != '/'
}

/// `owner/name` split at its only slash; `None` without a slash or with
/// more than one (`split_once('/')`, then a name without `/`).
pub open spec fn owner_name(s: Seq<char>) -> Option<(Seq<char>, Seq<char>)> {
    if exists|k: int| single_slash_at(s, k) {
        let k = choose|k: int| single_slash_at(s, k);
        Some((s.take(k), s.skip(k + 1)))
    } else {
        None
    }
}

/// Splits a full name into owner and name, when it holds exactly one `/`.
pub fn split_owner_name(full: &str) -> (r: Option<(Vec<char>, Vec<char>)>)
    ensures
        match owner_name(full@) {
            Some((o, n)) => r matches Some((a, b)) && a@ == o && b@ == n,
            None => r is None,
        },
{
    let s = crate::text::chars_of(full);
    let mut first: usize = s.len();
    let mut count: usize = 0;
    let mut i: usize = 0;
    while i < s.len()
        invariant
            s@ == full@,
            i <= s@.len(),
            count <= i,
            count == 0 ==> first == s@.len() && forall|j: int| 0 <= j < i ==> s@[j] != '/',
            count >= 1 ==> first < i && s@[first as int] == '/' && forall|j: int|
                0 <= j < first ==> s@[j] != '/',
            count == 1 ==> forall|j: int| 0 <= j < i && j != first ==> s@[j] != '/',
            count >= 2 ==> exists|j: int| 0 <= j < i && j != first && s@[j] == '/',
        decreases s.len() - i,
    {
        if s[i] == '/' {
            if count == 0 {
                first = i;
            }
            if count < 2 {
                count += 1;
            }
        }
        i += 1;
    }
    if count == 1 {
        assert(single_slash_at(s@, first as int));
        let ghost k = choose|k: int| single_slash_at(s@, k);
        assert(k == first);
        let owner = crate::text::sub_chars(s.as_slice(), 0, first);
        let name = crate::text::sub_chars(s.as_slice(), first + 1, s.len());
        assert(owner@ =~= s@.take(first as int));
        assert(name@ =~= s@.skip(first + 1));
        Some((owner, name))
    } else {
        proof {
            if exists|k: int| single_slash_at(s@, k) {
                let k = choose|k: int| single_slash_at(s@, k);
                if count == 0 {
                    assert(s@[k] != '/');
                } else {
                    let j = choose|j: int| 0 <= j < i && j != first && s@[j] == '/';
                    if k == first {
                        assert(s@[j] != '/');
                    } else {
                        assert(s@[first as int] != '/');
                    }
                }
            }
        }
        None
    }
}

/// The variable declarations of repository `i` of a batch.
pub open spec fn repo_decl(i: nat) -> Seq<char> {
    "$o"@ + decimal(i) + ":String!,$n"@ + decimal(i) + ":String!"@
}

/// The aliased lookup of repository `i` of a batch.
pub open spec fn repo_selection(i: nat) -> Seq<char> {
    "r"@ + decimal(i) + ": repository(owner:$o"@ + decimal(i) + ",name:$n"@ + decimal(i)
        + "){...S} "@
}

/// The declarations of the first `n` repositories that split into owner
/// and name.
pub open spec fn batch_decls(chunk: Seq<String>, n: nat) -> Seq<Seq<char>>
    decreases n,
{
    if n == 0 {
        Seq::empty()
    } else if owner_name(chunk[n - 1]@) is Some {
        batch_decls(chunk, (n - 1) as nat).push(repo_decl((n - 1) as nat))
    } else {
        batch_decls(chunk, (n - 1) as nat)
    }
}

/// The selections of the first `n` repositories that split into owner and
/// name, one after the other.
pub open spec fn batch_selections(chunk: Seq<String>, n: nat) -> Seq<char>
    decreases n,
{
    if n == 0 {
        Seq::empty()
    } else if owner_name(chunk[n - 1]@) is Some {
        batch_selections(chunk, (n - 1) as nat) + repo_selection((n - 1) as nat)
    } else {
        batch_selections(chunk, (n - 1) as nat)
    }
}

/// The variables `o{i}` (owner) and `n{i}` (name) of the first `n`
/// repositories that split.
pub open spec fn batch_variables(chunk: Seq<String>, n: nat) -> Seq<(Seq<char>, Seq<char>)>
    decreases n,
{
    if n == 0 {
        Seq::empty()
    } else {
        match owner_name(chunk[n - 1]@) {
            Some((o, name)) => batch_variables(chunk, (n - 1) as nat).push(
                ("o"@ + decimal((n - 1) as nat), o),
            ).push(("n"@ + decimal((n - 1) as nat), name)),
            None => batch_variables(chunk, (n - 1) as nat),
        }
    }
}

/// The pieces joined with `sep` between each two.
pub open spec fn join(parts: Seq<Seq<char>>, sep: Seq<char>) -> Seq<char>
    decreases parts.len(),
{
    if parts.len() == 0 {
        Seq::empty()
    } else if parts.len() == 1 {
        parts[0]
    } else {
        join(parts.drop_last(), sep) + sep + parts.last()
    }
}

/// The text of the batch query for a chunk of `owner/name` full names.
pub open spec fn batch_query_text(chunk: Seq<String>) -> Seq<char> {
    "query batch("@ + join(batch_decls(chunk, chunk.len()), ","@) + "){"@ + batch_selections(
        chunk,
        chunk.len(),
    ) + "} "@ + FORGE_FRAGMENT@
}

/// The batch query for a chunk of full names and its variables: each full
/// name with exactly one `/` becomes the lookup `r{i}` of owner `o{i}` and
/// name `n{i}`, `i` its position in the chunk; the others are left out.
pub fn batch_query(chunk: &[String]) -> (r: (String, Vec<(String, String)>))
    ensures
        r.0@ == batch_query_text(chunk@),
        r.1@.len() == batch_variables(chunk@, chunk@.len()).len(),
        forall|k: int|
            0 <= k < r.1@.len() ==> (#[trigger] r.1@[k]).0@ == batch_variables(
                chunk@,
                chunk@.len(),
            )[k].0 && r.1@[k].1@ == batch_variables(chunk@, chunk@.len())[k].1,
{
    let mut decls: Vec<char> = Vec::new();
    let mut sels: Vec<char> = Vec::new();
    let mut vars: Vec<(String, String)> = Vec::new();
    let mut any: bool = false;
    let mut i: usize = 0;
    while i < chunk.len()
        invariant
            i <= chunk@.len(),
            any == (batch_decls(chunk@, i as nat).len() > 0),
            decls@ == join(batch_decls(chunk@, i as nat), ","@),
            sels@ == batch_selections(chunk@, i as nat),
            vars@.len() == batch_variables(chunk@, i as nat).len(),
            forall|k: int|
                0 <= k < vars@.len() ==> (#[trigger] vars@[k]).0@ == batch_variables(
                    chunk@,
                    i as nat,
                )[k].0 && vars@[k].1@ == batch_variables(chunk@, i as nat)[k].1,
        decreases chunk.len() - i,
    {
        let ghost prev_decls = batch_decls(chunk@, i as nat);
        let ghost prev_vars = batch_variables(chunk@, i as nat);
        match split_owner_name(chunk[i].as_str()) {
            Some((owner, name)) => {
                let mut d: Vec<char> = Vec::new();
                extend_str(&mut d, "$o");
                push_decimal(&mut d, i as u64);
                extend_str(&mut d, ":String!,$n");
                push_decimal(&mut d, i as u64);
                extend_str(&mut d, ":String!");
                assert(d@ =~= repo_decl(i as nat));
                if any {
                    extend_str(&mut decls, ",");
                }
                extend_chars(&mut decls, d.as_slice());
                any = true;
                proof {
                    let next = prev_decls.push(repo_decl(i as nat));
                    assert(batch_decls(chunk@, (i + 1) as nat) == next);
                    assert(next.drop_last() =~= prev_decls);
                    if prev_decls.len() == 0 {
                        assert(decls@ =~= join(next, ","@));
                    } else {
                        assert(decls@ =~= join(next, ","@));
                    }
                }
                let ghost s0 = sels@;
                extend_str(&mut sels, "r");
                push_decimal(&mut sels, i as u64);
                extend_str(&mut sels, ": repository(owner:$o");
                push_decimal(&mut sels, i as u64);
                extend_str(&mut sels, ",name:$n");
                push_decimal(&mut sels, i as u64);
                extend_str(&mut sels, "){...S} ");
                assert(sels@ =~= s0 + repo_selection(i as nat));
                let mut ok: Vec<char> = Vec::new();
                extend_str(&mut ok, "o");
                push_decimal(&mut ok, i as u64);
                let mut nk: Vec<char> = Vec::new();
                extend_str(&mut nk, "n");
                push_decimal(&mut nk, i as u64);
                vars.push((string_of(ok.as_slice()), string_of(owner.as_slice())));
                vars.push((string_of(nk.as_slice()), string_of(name.as_slice())));
                proof {
                    let nv = batch_variables(chunk@, (i + 1) as nat);
                    assert(nv == prev_vars.push(("o"@ + decimal(i as nat), owner@)).push(
                        ("n"@ + decimal(i as nat), name@),
                    ));
                    assert forall|k: int| 0 <= k < vars@.len() implies (#[trigger] vars@[k]).0@
                        == nv[k].0 && vars@[k].1@ == nv[k].1 by {
                        if k < prev_vars.len() {
                        } else if k == prev_vars.len() {
                            assert(ok@ =~= "o"@ + decimal(i as nat));
                        } else {
                            assert(nk@ =~= "n"@ + decimal(i as nat));
                        }
                    }
                }
            },
            None => {},
        }
        i += 1;
    }
    let mut q: Vec<char> = Vec::new();
    extend_str(&mut q, "query batch(");
    extend_chars(&mut q, decls.as_slice());
    extend_str(&mut q, "){");
    extend_chars(&mut q, sels.as_slice());
    extend_str(&mut q, "} ");
    extend_str(&mut q, FORGE_FRAGMENT);
    assert(chunk@.len() == i);
    assert(q@ =~= batch_query_text(chunk@));
    (string_of(q.as_slice()), vars)
}

/// The alias of repository `i` of a batch in the answer.
pub open spec fn repo_alias(i: nat) -> Seq<char> {
    "r"@ + decimal(i)
}

/// What one repository of a batch answer says.
pub open spec fn repo_metrics(repo: Json) -> ForgeMetrics {
    let (open, closed, disabled) = issue_counts_of(repo);
    ForgeMetrics {
        stars: u64_or_zero(repo.at("stargazerCount"@)),
        forks: u64_or_zero(repo.at("forkCount"@)),
        issues_open: open,
        issues_closed: closed,
        issues_disabled: disabled,
        pull_requests_all_time: u64_or_zero(repo.at("prAll"@).at("totalCount"@)),
        pull_requests_recent: None,
    }
}

/// The metrics known after reading the first `n` repositories of a batch
/// answer into `m`: every repository whose lookup is not null, the later
/// one winning where a full name comes twice.
pub open spec fn batch_recorded(
    m: Map<Seq<char>, ForgeMetrics>,
    chunk: Seq<String>,
    body: Json,
    n: nat,
) -> Map<Seq<char>, ForgeMetrics>
    decreases n,
{
    if n == 0 {
        m
    } else {
        let prev = batch_recorded(m, chunk, body, (n - 1) as nat);
        let repo = body.at("data"@).at(repo_alias((n - 1) as nat));
        if repo == Json::Null {
            prev
        } else {
            prev.insert(chunk[n - 1]@, repo_metrics(repo))
        }
    }
}

/// A count field of an answer: its number, 0 when it holds none.
pub open spec fn count_field(v: Json) -> u64 {
    match v {
        Json::UInt(n) => n,
        _ => 0,
    }
}

/// A repository read from a batch answer carries the numbers of its own
/// lookup: stars, forks, the open and closed issue totals while its tracker
/// is on (none when `hasIssuesEnabled` is false), whether the tracker is
/// off, and the pull request total; the last lookup of a full name wins.
pub proof fn lemma_batch_reads_each_repository(
    m: Map<Seq<char>, ForgeMetrics>,
    chunk: Seq<String>,
    body: Json,
    n: nat,
    i: int,
)
    requires
        0 <= i < n <= chunk.len(),
        body.at("data"@).at("r"@ + decimal(i as nat)) != Json::Null,
        forall|j: int|
            i < j < n ==> chunk[j]@ != chunk[i]@ || body.at("data"@).at("r"@ + decimal(j as nat))
                == Json::Null,
    ensures
        ({
            let repo = body.at("data"@).at("r"@ + decimal(i as nat));
            let off = repo.at("hasIssuesEnabled"@) == Json::Bool(false);
            let got = batch_recorded(m, chunk, body, n);
            &&& got.contains_key(chunk[i]@)
            &&& got[chunk[i]@].stars == count_field(repo.at("stargazerCount"@))
            &&& got[chunk[i]@].forks == count_field(repo.at("forkCount"@))
            &&& got[chunk[i]@].issues_open == if off {
                None
            } else {
                Some(count_field(repo.at("openI"@).at("totalCount"@)))
            }
            &&& got[chunk[i]@].issues_closed == if off {
                None
            } else {
                Some(count_field(repo.at("closedI"@).at("totalCount"@)))
            }
            &&& got[chunk[i]@].issues_disabled == off
            &&& got[chunk[i]@].pull_requests_all_time == count_field(
                repo.at("prAll"@).at("totalCount"@),
            )
            &&& got[chunk[i]@].pull_requests_recent is None
        }),
    decreases n,
{
    if n - 1 > i {
        lemma_batch_reads_each_repository(m, chunk, body, (n - 1) as nat, i);
    }
}

fn key_with_index(prefix: &str, i: usize) -> (r: String)
    ensures
        r@ == prefix@ + decimal(i as nat),
{
    let mut k: Vec<char> = Vec::new();
    extend_str(&mut k, prefix);
    push_decimal(&mut k, i as u64);
    string_of(k.as_slice())
}

/// Reads the answer to a batch query for `chunk` into `out`.
pub fn record_batch(out: &mut NameMap<ForgeMetrics>, chunk: &[String], body: &Json)
    requires
        old(out).wf(),
    ensures
        final(out).wf(),
        final(out).as_map() == batch_recorded(old(out).as_map(), chunk@, *body, chunk@.len()),
{
    let ghost start = out.as_map();
    let data = body.get("data");
    let mut i: usize = 0;
    while i < chunk.len()
        invariant
            i <= chunk@.len(),
            out.wf(),
            out.as_map() == batch_recorded(start, chunk@, *body, i as nat),
            match data {
                Some(d) => *d == body.at("data"@),
                None => body.at("data"@) == Json::Null,
            },
        decreases chunk.len() - i,
    {
        match data {
            Some(d) => {
                let key = key_with_index("r", i);
                match d.get(key.as_str()) {
                    Some(repo) => {
                        if !repo.is_null() {
                            let (open, closed, disabled) = issue_counts(repo);
                            let m = ForgeMetrics {
                                stars: match get_u64(repo, "stargazerCount") {
                                    Some(n) => n,
                                    None => 0,
                                },
                                forks: match get_u64(repo, "forkCount") {
                                    Some(n) => n,
                                    None => 0,
                                },
                                issues_open: open,
                                issues_closed: closed,
                                issues_disabled: disabled,
                                pull_requests_all_time: match get_u64_in(
                                    repo,
                                    "prAll",
                                    "totalCount",
                                ) {
                                    Some(n) => n,
                                    None => 0,
                                },
                                pull_requests_recent: None,
                            };
                            out.insert(chunk[i].clone(), m);
                        }
                    },
                    None => {},
                }
            },
            None => {},
        }
        i += 1;
    }
}

/// The search of recent pull requests of repository `i` of a chunk.
pub open spec fn search_selection(i: nat, full: Seq<char>, cutoff: Seq<char>) -> Seq<char> {
    "s"@ + decimal(i) + ": search(query:\"repo:"@ + full + " is:pr created:>="@ + cutoff
        + "\",type:ISSUE,first:1){issueCount} "@
}

/// The searches of the first `n` repositories of a chunk, one after the other.
pub open spec fn search_selections(chunk: Seq<String>, cutoff: Seq<char>, n: nat) -> Seq<char>
    decreases n,
{
    if n == 0 {
        Seq::empty()
    } else {
        search_selections(chunk, cutoff, (n - 1) as nat) + search_selection(
            (n - 1) as nat,
            chunk[n - 1]@,
            cutoff,
        )
    }
}

/// The query counting the pull requests of each repository of `chunk`
/// opened on or after `cutoff` (a `year-month-day` date).
pub fn recent_prs_query(chunk: &[String], cutoff: &str) -> (r: String)
    ensures
        r@ == "query{"@ + search_selections(chunk@, cutoff@, chunk@.len()) + "}"@,
{
    let mut q: Vec<char> = Vec::new();
    extend_str(&mut q, "query{");
    let mut i: usize = 0;
    while i < chunk.len()
        invariant
            i <= chunk@.len(),
            q@ == "query{"@ + search_selections(chunk@, cutoff@, i as nat),
        decreases chunk.len() - i,
    {
        let ghost q0 = q@;
        extend_str(&mut q, "s");
        push_decimal(&mut q, i as u64);
        extend_str(&mut q, ": search(query:\"repo:");
        extend_str(&mut q, chunk[i].as_str());
        extend_str(&mut q, " is:pr created:>=");
        extend_str(&mut q, cutoff);
        extend_str(&mut q, "\",type:ISSUE,first:1){issueCount} ");
        assert(q@ =~= q0 + search_selection(i as nat, chunk@[i as int]@, cutoff@));
        i += 1;
    }
    extend_str(&mut q, "}");
    string_of(q.as_slice())
}

/// The metrics with their count of recent pull requests set.
pub open spec fn with_recent(m: ForgeMetrics, n: u64) -> ForgeMetrics {
    ForgeMetrics {
        stars: m.stars,
        forks: m.forks,
        issues_open: m.issues_open,
        issues_closed: m.issues_closed,
        issues_disabled: m.issues_disabled,
        pull_requests_all_time: m.pull_requests_all_time,
        pull_requests_recent: Some(n),
    }
}

/// The metrics after reading the first `n` searches of an answer: a
/// count sets the recent pull requests of a repository already known.
pub open spec fn recent_recorded(
    m: Map<Seq<char>, ForgeMetrics>,
    chunk: Seq<String>,
    body: Json,
    n: nat,
) -> Map<Seq<char>, ForgeMetrics>
    decreases n,
{
    if n == 0 {
        m
    } else {
        let prev = recent_recorded(m, chunk, body, (n - 1) as nat);
        let key = chunk[n - 1]@;
        match body.at("data"@).at("s"@ + decimal((n - 1) as nat)).at("issueCount"@).u64_of() {
            Some(c) => if prev.contains_key(key) {
                prev.insert(key, with_recent(prev[key], c))
            } else {
                prev
            },
            None => prev,
        }
    }
}

/// Reads the answer to a recent pull request query for `chunk` into `out`.
pub fn record_recent(out: &mut NameMap<ForgeMetrics>, chunk: &[String], body: &Json)
    requires
        old(out).wf(),
    ensures
        final(out).wf(),
        final(out).as_map() == recent_recorded(old(out).as_map(), chunk@, *body, chunk@.len()),
{
    let ghost start = out.as_map();
    let data = body.get("data");
    let mut i: usize = 0;
    while i < chunk.len()
        invariant
            i <= chunk@.len(),
            out.wf(),
            out.as_map() == recent_recorded(start, chunk@, *body, i as nat),
            match data {
                Some(d) => *d == body.at("data"@),
                None => body.at("data"@) == Json::Null,
            },
        decreases chunk.len() - i,
    {
        match data {
            Some(d) => {
                let key = key_with_index("s", i);
                let count = match d.get(key.as_str()) {
                    Some(search) => get_u64(search, "issueCount"),
                    None => None,
                };
                match count {
                    Some(c) => {
                        let known = match out.get(chunk[i].as_str()) {
                            Some(m) => Some(*m),
                            None => None,
                        };
                        match known {
                            Some(m) => {
                                let updated = ForgeMetrics { pull_requests_recent: Some(c), ..m };
                                out.insert(chunk[i].clone(), updated);
                            },
                            None => {},
                        }
                    },
                    None => {},
                }
            },
            None => {},
        }
        i += 1;
    }
}

/// What the REST API says of a repository.
#[derive(Clone, Copy, Debug, PartialEq, Eq)]
pub struct GithubRepo {
    pub stargazers_count: u64,
    pub forks_count: u64,
    pub open_issues_count: u64,
    pub has_issues: bool,
}

/// An absent `has_issues` reads as an enabled tracker.
pub fn default_true() -> (r: bool)
    ensures
        r,
{
    true
}

/// The REST endpoint of a repository.
pub fn repo_url(base: &str, full_name: &str) -> (r: String)
    ensures
        r@ == base@ + "/repos/"@ + full_name@,
{
    let mut v: Vec<char> = Vec::new();
    extend_str(&mut v, base);
    extend_str(&mut v, "/repos/");
    extend_str(&mut v, full_name);
    string_of(v.as_slice())
}

/// The REST issue search endpoint.
pub fn search_url(base: &str) -> (r: String)
    ensures
        r@ == base@ + "/search/issues"@,
{
    let mut v: Vec<char> = Vec::new();
    extend_str(&mut v, base);
    extend_str(&mut v, "/search/issues");
    string_of(v.as_slice())
}

/// The search for the closed issues of a repository.
pub fn closed_issues_query(full_name: &str) -> (r: String)
    ensures
        r@ == "repo:"@ + full_name@ + " type:issue state:closed"@,
{
    let mut v: Vec<char> = Vec::new();
    extend_str(&mut v, "repo:");
    extend_str(&mut v, full_name);
    extend_str(&mut v, " type:issue state:closed");
    string_of(v.as_slice())
}

/// The search for all pull requests of a repository.
pub fn pull_requests_query(full_name: &str) -> (r: String)
    ensures
        r@ == "repo:"@ + full_name@ + " type:pr"@,
{
    let mut v: Vec<char> = Vec::new();
    extend_str(&mut v, "repo:");
    extend_str(&mut v, full_name);
    extend_str(&mut v, " type:pr");
    string_of(v.as_slice())
}

/// The search for the pull requests of a repository opened on or after
/// `cutoff`.
pub fn recent_pull_requests_query(full_name: &str, cutoff: JulianDay) -> (r: String)
    requires
        MIN_DAY <= cutoff <= MAX_DAY,
    ensures
        calendar_of(cutoff) matches Some((y, m, d)) && r@ == "repo:"@ + full_name@
            + " type:pr created:>="@ + iso_ymd_text(y, m, d),
{
    let mut v: Vec<char> = Vec::new();
    extend_str(&mut v, "repo:");
    extend_str(&mut v, full_name);
    extend_str(&mut v, " type:pr created:>=");
    match iso_date(cutoff) {
        Some(d) => extend_chars(&mut v, d.as_slice()),
        None => {},
    }
    string_of(v.as_slice())
}

/// The metrics of the REST answers: the repository, the total of its
/// closed issues (read only while its tracker is on) and the totals of
/// its pull requests.
pub fn rest_metrics(repo: &GithubRepo, closed_total: u64, pr_all: u64, pr_recent: u64) -> (r:
    ForgeMetrics)
    ensures
        r == (ForgeMetrics {
            stars: repo.stargazers_count,
            forks: repo.forks_count,
            issues_open: if repo.has_issues {
                Some(repo.open_issues_count)
            } else {
                None
            },
            issues_closed: if repo.has_issues {
                Some(closed_total)
            } else {
                None
            },
            issues_disabled: !repo.has_issues,
            pull_requests_all_time: pr_all,
            pull_requests_recent: Some(pr_recent),
        }),
{
    // open_issues_count also counts open pull requests; stored raw, the UI decides.
    let (open, closed) = if repo.has_issues {
        (Some(repo.open_issues_count), Some(closed_total))
    } else {
        (None, None)
    };
    ForgeMetrics {
        stars: repo.stargazers_count,
        forks: repo.forks_count,
        issues_open: open,
        issues_closed: closed,
        issues_disabled: !repo.has_issues,
        pull_requests_all_time: pr_all,
        pull_requests_recent: Some(pr_recent),
    }
}

} // verus!
