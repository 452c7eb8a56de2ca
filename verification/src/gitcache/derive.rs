//! Metrics read off a repository's cache.
use vstd::prelude::*;

use super::{Cache, CacheView, DayEntryView, JulianDay, TagEntry};
use crate::dates::{MAX_DAY, MIN_DAY};

verus! {

/// What the git history says about a repository.
#[derive(Clone, Copy, Debug, PartialEq, Eq)]
pub struct GitMetrics {
    pub contributors: u64,
    pub commits_all_time: u64,
    pub commits_recent: u64,
    pub tags: u64,
    pub oldest_commit: JulianDay,
}

/// The day of the last of `es`, counting from `first`.
pub open spec fn day_after(first: int, es: Seq<DayEntryView>) -> int
    decreases es.len(),
{
    if es.len() == 0 {
        first
    } else {
        day_after(first, es.drop_last()) + es.last().delta
    }
}

/// All commits of the entries.
pub open spec fn commits_total(es: Seq<DayEntryView>) -> nat
    decreases es.len(),
{
    if es.len() == 0 {
        0
    } else {
        commits_total(es.drop_last()) + es.last().commits as nat
    }
}

/// The commits of the entries that fall on `cutoff` or later.
pub open spec fn commits_since(first: int, es: Seq<DayEntryView>, cutoff: int) -> nat
    decreases es.len(),
{
    if es.len() == 0 {
        0
    } else {
        commits_since(first, es.drop_last(), cutoff) + if day_after(first, es) >= cutoff {
            es.last().commits as nat
        } else {
            0
        }
    }
}

/// All tags counted by the tag entries.
pub open spec fn tag_total(ts: Seq<TagEntry>) -> nat
    decreases ts.len(),
{
    if ts.len() == 0 {
        0
    } else {
        tag_total(ts.drop_last()) + ts.last().count as nat
    }
}

/// The days the cache's entries fall on stay among the days `time` represents.
pub open spec fn days_in_range(c: CacheView) -> bool {
    &&& MIN_DAY <= c.first_entry
    &&& day_after(c.first_entry as int, c.entries) <= MAX_DAY
}

/// Days only move forward from the first one.
pub proof fn lemma_day_after_ge(first: int, es: Seq<DayEntryView>)
    ensures
        first <= day_after(first, es),
    decreases es.len(),
{
    if es.len() > 0 {
        lemma_day_after_ge(first, es.drop_last());
    }
}

/// The day of a prefix of the entries is no later than the day of all.
pub proof fn lemma_day_after_mono(first: int, es: Seq<DayEntryView>, i: int)
    requires
        0 <= i <= es.len(),
    ensures
        first <= day_after(first, es.take(i)) <= day_after(first, es),
    decreases es.len() - i,
{
    lemma_day_after_ge(first, es.take(i));
    if i < es.len() {
        lemma_day_after_mono(first, es, i + 1);
        assert(es.take(i + 1).drop_last() =~= es.take(i));
    } else {
        assert(es.take(i) =~= es);
    }
}

proof fn lemma_commits_bound(es: Seq<DayEntryView>)
    ensures
        commits_total(es) <= es.len() * 65535,
    decreases es.len(),
{
    if es.len() > 0 {
        lemma_commits_bound(es.drop_last());
    }
}

proof fn lemma_tags_bound(ts: Seq<TagEntry>)
    ensures
        tag_total(ts) <= ts.len() * 65535,
    decreases ts.len(),
{
    if ts.len() > 0 {
        lemma_tags_bound(ts.drop_last());
    }
}

/// The deltas of the first `n` entries added up.
pub open spec fn delta_sum(es: Seq<DayEntryView>, n: nat) -> int
    decreases n,
{
    if n == 0 {
        0
    } else {
        delta_sum(es, (n - 1) as nat) + es[n - 1].delta
    }
}

/// The commits of the first `n` entries whose day (the first day plus the
/// deltas up to and including the entry) is on or after `cutoff`.
pub open spec fn window_commits(first: int, es: Seq<DayEntryView>, cutoff: int, n: nat) -> nat
    decreases n,
{
    if n == 0 {
        0
    } else {
        window_commits(first, es, cutoff, (n - 1) as nat) + if first + delta_sum(es, n) >= cutoff {
            es[n - 1].commits as nat
        } else {
            0
        }
    }
}

/// The day of an entry is the first day plus the deltas up to and
/// including it.
pub proof fn lemma_entry_day(first: int, es: Seq<DayEntryView>, n: nat)
    requires
        n <= es.len(),
    ensures
        day_after(first, es.take(n as int)) == first + delta_sum(es, n),
    decreases n,
{
    if n > 0 {
        lemma_entry_day(first, es, (n - 1) as nat);
        assert(es.take(n as int).drop_last() =~= es.take(n - 1));
    } else {
        assert(es.take(0) =~= Seq::<DayEntryView>::empty());
    }
}

/// The recent commits are exactly the commits of the entries whose day,
/// counted from the first day through every delta up to the entry, is on
/// or after the cutoff.
pub proof fn lemma_recent_counts_the_window(first: int, es: Seq<DayEntryView>, cutoff: int)
    ensures
        commits_since(first, es, cutoff) == window_commits(first, es, cutoff, es.len()),
{
    lemma_recent_prefix(first, es, cutoff, es.len());
    assert(es.take(es.len() as int) =~= es);
}

proof fn lemma_recent_prefix(first: int, es: Seq<DayEntryView>, cutoff: int, n: nat)
    requires
        n <= es.len(),
    ensures
        commits_since(first, es.take(n as int), cutoff) == window_commits(first, es, cutoff, n),
    decreases n,
{
    if n > 0 {
        lemma_recent_prefix(first, es, cutoff, (n - 1) as nat);
        assert(es.take(n as int).drop_last() =~= es.take(n - 1));
        lemma_entry_day(first, es, n);
    } else {
        assert(es.take(0) =~= Seq::<DayEntryView>::empty());
    }
}

/// Recent commits are some of all the commits.
pub proof fn lemma_recent_within_total(first: int, es: Seq<DayEntryView>, cutoff: int)
    ensures
        commits_since(first, es, cutoff) <= commits_total(es),
    decreases es.len(),
{
    if es.len() > 0 {
        lemma_recent_within_total(first, es.drop_last(), cutoff);
    }
}

/// Contributors, commits (all and since `recent_days` before `now`), tags and
/// the oldest commit of a cache.
pub fn derive(cache: &Cache, now: JulianDay, recent_days: u32) -> (r: GitMetrics)
    requires
        MIN_DAY <= now - recent_days,
        now <= MAX_DAY,
        days_in_range(cache@),
        cache.entries@.len() <= 0x1_0000_0000_0000,
        cache.tags@.len() <= 0x1_0000_0000_0000,
    ensures
        r.contributors == cache@.authors.len(),
        r.commits_all_time == commits_total(cache@.entries),
        r.commits_recent == commits_since(
            cache.first_entry as int,
            cache@.entries,
            now - recent_days,
        ),
        r.tags == tag_total(cache@.tags),
        r.oldest_commit == cache.oldest_commit,
{
    let ghost c = cache@;
    let cutoff: i32 = now - recent_days as i32;
    let mut commits_all_time: u64 = 0;
    let mut commits_recent: u64 = 0;
    let mut cur: i32 = cache.first_entry;
    for i in 0..cache.entries.len()
        invariant
            c == cache@,
            cutoff == now - recent_days,
            days_in_range(c),
            c.entries.len() <= 0x1_0000_0000_0000,
            cur == day_after(cache.first_entry as int, c.entries.take(i as int)),
            commits_all_time == commits_total(c.entries.take(i as int)),
            commits_recent == commits_since(cache.first_entry as int, c.entries.take(i as int), cutoff as int),
    {
        let e = &cache.entries[i];
        proof {
            assert(c.entries[i as int] == e@);
            let t = c.entries.take(i + 1);
            assert(t.drop_last() =~= c.entries.take(i as int));
            assert(t.last() == e@);
            lemma_day_after_mono(cache.first_entry as int, c.entries, i + 1);
            lemma_commits_bound(t);
            lemma_recent_within_total(cache.first_entry as int, t, cutoff as int);
        }
        cur = cur + e.delta as i32;
        commits_all_time = commits_all_time + e.commits as u64;
        if cur >= cutoff {
            commits_recent = commits_recent + e.commits as u64;
        }
    }
    assert(c.entries.take(c.entries.len() as int) =~= c.entries);

    let mut tags: u64 = 0;
    for i in 0..cache.tags.len()
        invariant
            c == cache@,
            c.tags.len() <= 0x1_0000_0000_0000,
            tags == tag_total(c.tags.take(i as int)),
    {
        proof {
            let t = c.tags.take(i + 1);
            assert(t.drop_last() =~= c.tags.take(i as int));
            lemma_tags_bound(t);
        }
        tags = tags + cache.tags[i].count as u64;
    }
    assert(c.tags.take(c.tags.len() as int) =~= c.tags);

    GitMetrics {
        contributors: cache.authors.len() as u64,
        commits_all_time,
        commits_recent,
        tags,
        oldest_commit: cache.oldest_commit,
    }
}

} // verus!
