//! Building a repository's cache from its git history, and refreshing it.
use vstd::prelude::*;

use crate::dates::{format_ymd, ymd_text_of, iso8601_utc_day_of, parse_iso8601_utc_day, parse_ymd, ymd_day_of, MAX_DAY, MIN_DAY};
use crate::daymap::{lemma_map_of_at, lemma_map_of_dom, map_of, strictly_sorted, DayMap};
use crate::tally::{lemma_occurrences_sum, lemma_sum_over_same, occurrences, sum_over};
use crate::gitcache::derive::{commits_total, tag_total, day_after, days_in_range, lemma_day_after_mono};
use crate::gitcache::{Cache, CacheOutcome, CacheView, DayEntry, DayEntryView, JulianDay, TagEntry};
use crate::text::{
    chars_of, contains, contains_seq, is_white_space, lines, split, split_char, split_lines,
    str_eq, string_of, trim, trim_ws, white_space,
};

verus! {

/// What git prints when a `--shallow-since` clone has no commit in its window.
pub open spec fn empty_window_message(stderr: Seq<char>) -> bool {
    contains_seq(stderr, "error processing shallow info"@) || contains_seq(
        stderr,
        "no commits selected for shallow requests"@,
    )
}

/// git aborts a `--shallow-since` clone when no commit falls in the
/// window. On an incremental refresh that just means the repository had no
/// new activity since the last run, not a failure.
pub fn empty_shallow_window(stderr: &str) -> (r: bool)
    ensures
        r == empty_window_message(stderr@),
{
    let s = chars_of(stderr);
    let a = chars_of("error processing shallow info");
    if contains(s.as_slice(), a.as_slice()) {
        return true;
    }
    let b = chars_of("no commits selected for shallow requests");
    contains(s.as_slice(), b.as_slice())
}

/// Why a cache could not be built.
#[derive(Clone, Copy, Debug, PartialEq, Eq)]
pub enum BuildError {
    /// A log line without a date field.
    MissingDate,
    /// A log line whose date is not an ISO 8601 date and time.
    BadDate,
    /// A log line without an author field.
    MissingEmail,
    /// A tag date that is not `year-month-day`.
    BadTagDate,
    /// More than 65535 tags on one day.
    TooManyTags,
    /// The history holds no commit.
    NoCommits,
}

/// One commit of the log: its UTC day, author e-mail, and whether it has
/// more than one parent.
#[derive(Clone, Debug, PartialEq, Eq)]
pub struct RawCommit {
    pub day: JulianDay,
    pub email: String,
    pub is_merge: bool,
}

/// A commit as data.
pub struct CommitView {
    pub day: JulianDay,
    pub email: Seq<char>,
    pub is_merge: bool,
}

impl View for RawCommit {
    type V = CommitView;

    open spec fn view(&self) -> CommitView {
        CommitView { day: self.day, email: self.email@, is_merge: self.is_merge }
    }
}

/// `s` holds at least two words separated by white space
/// (`s.split_whitespace().count() > 1`).
pub open spec fn two_words(s: Seq<char>) -> bool {
    exists|a: int, b: int, c: int|
        0 <= a < b < c < s.len() && !is_white_space(#[trigger] s[a]) && is_white_space(
            #[trigger] s[b],
        ) && !is_white_space(#[trigger] s[c])
}

/// Whether the parents field names more than one commit.
pub fn has_two_words(s: &[char]) -> (r: bool)
    ensures
        r == two_words(s@),
{
    // 0: no word yet, 1: inside or after a first word with no gap yet,
    // 2: a gap after a word.
    let mut state: u8 = 0;
    let mut i: usize = 0;
    while i < s.len()
        invariant
            i <= s@.len(),
            state <= 2,
            state == 0 ==> forall|k: int| 0 <= k < i ==> is_white_space(#[trigger] s@[k]),
            state >= 1 ==> exists|a: int| 0 <= a < i && !is_white_space(#[trigger] s@[a]),
            state == 1 ==> forall|a: int, b: int|
                0 <= a < b < i && !is_white_space(#[trigger] s@[a]) ==> !is_white_space(
                    #[trigger] s@[b],
                ),
            state == 2 ==> exists|a: int, b: int|
                0 <= a < b < i && !is_white_space(#[trigger] s@[a]) && is_white_space(
                    #[trigger] s@[b],
                ),
            state == 2 ==> forall|a: int, b: int, c: int|
                0 <= a < b < c < i ==> !(!is_white_space(#[trigger] s@[a]) && is_white_space(
                    #[trigger] s@[b],
                ) && !is_white_space(#[trigger] s@[c])),
            state <= 1 ==> forall|a: int, b: int, c: int|
                0 <= a < b < c < i ==> !(!is_white_space(#[trigger] s@[a]) && is_white_space(
                    #[trigger] s@[b],
                ) && !is_white_space(#[trigger] s@[c])),
        decreases s.len() - i,
    {
        let ws = white_space(s[i]);
        if !ws && state == 2 {
            proof {
                let (a, b) = choose|a: int, b: int|
                    0 <= a < b < i && !is_white_space(#[trigger] s@[a]) && is_white_space(
                        #[trigger] s@[b],
                    );
                assert(!is_white_space(s@[a]) && is_white_space(s@[b]) && !is_white_space(
                    s@[i as int],
                ));
            }
            return true;
        }
        if !ws && state == 0 {
            state = 1;
            assert(!is_white_space(s@[i as int]));
        } else if ws && state == 1 {
            proof {
                let a = choose|a: int| 0 <= a < i && !is_white_space(#[trigger] s@[a]);
                assert(!is_white_space(s@[a]) && is_white_space(s@[i as int]));
            }
            state = 2;
        }
        i += 1;
    }
    false
}

/// The field after the `n`th separator, if the line has one.
pub open spec fn field(parts: Seq<Seq<char>>, n: int) -> Option<Seq<char>> {
    if n < parts.len() {
        Some(parts[n])
    } else {
        None
    }
}

/// What one non-empty log line (`%H␟%aI␟%ae␟%P`) says: the commit's UTC
/// day, author e-mail and whether it merges.
pub open spec fn commit_of(line: Seq<char>) -> Result<CommitView, BuildError> {
    let parts = split_char(line, '\u{1f}');
    if parts.len() < 2 {
        Err(BuildError::MissingDate)
    } else {
        match iso8601_utc_day_of(parts[1]) {
            None => Err(BuildError::BadDate),
            Some(day) => if parts.len() < 3 {
                Err(BuildError::MissingEmail)
            } else {
                Ok(
                    CommitView {
                        day,
                        email: parts[2],
                        is_merge: two_words(
                            if parts.len() >= 4 {
                                parts[3]
                            } else {
                                Seq::empty()
                            },
                        ),
                    },
                )
            },
        }
    }
}

/// The commits of the log lines, skipping empty lines; the error of the
/// first line that has one.
pub open spec fn commits_of(ls: Seq<Seq<char>>) -> Result<Seq<CommitView>, BuildError>
    decreases ls.len(),
{
    if ls.len() == 0 {
        Ok(Seq::empty())
    } else {
        match commits_of(ls.drop_last()) {
            Err(e) => Err(e),
            Ok(prev) => if ls.last().len() == 0 {
                Ok(prev)
            } else {
                match commit_of(ls.last()) {
                    Err(e) => Err(e),
                    Ok(c) => Ok(prev.push(c)),
                }
            },
        }
    }
}

/// An error among the first lines is the error of all of them.
proof fn lemma_commits_error_stays(ls: Seq<Seq<char>>, k: int)
    requires
        0 <= k <= ls.len(),
        commits_of(ls.take(k)) is Err,
    ensures
        commits_of(ls) == commits_of(ls.take(k)),
    decreases ls.len() - k,
{
    if k < ls.len() {
        assert(ls.take(k + 1).drop_last() =~= ls.take(k));
        lemma_commits_error_stays(ls, k + 1);
    } else {
        assert(ls.take(k) =~= ls);
    }
}

/// Reads the commits of a `git log --pretty=format:%H␟%aI␟%ae␟%P` listing.
pub fn parse_commits(log: &str) -> (r: Result<Vec<RawCommit>, BuildError>)
    ensures
        match commits_of(split_lines(log@)) {
            Ok(cs) => r matches Ok(v) && v@.map_values(|c: RawCommit| c@) == cs,
            Err(e) => r == Err::<Vec<RawCommit>, BuildError>(e),
        },
{
    let text = chars_of(log);
    let ls = lines(text.as_slice());
    let ghost lv = ls@.map_values(|p: Vec<char>| p@);
    let mut out: Vec<RawCommit> = Vec::new();
    let mut i: usize = 0;
    assert(lv.take(0) =~= Seq::<Seq<char>>::empty());
    assert(out@.map_values(|c: RawCommit| c@) =~= Seq::<CommitView>::empty());
    while i < ls.len()
        invariant
            i <= ls@.len(),
            lv == ls@.map_values(|p: Vec<char>| p@),
            lv == split_lines(log@),
            commits_of(lv.take(i as int)) == Ok::<Seq<CommitView>, BuildError>(
                out@.map_values(|c: RawCommit| c@),
            ),
        decreases ls.len() - i,
    {
        let ghost prev = out@.map_values(|c: RawCommit| c@);
        assert(lv.take(i + 1).drop_last() =~= lv.take(i as int));
        assert(lv.take(i + 1).last() == ls@[i as int]@);
        let line = &ls[i];
        if line.len() == 0 {
            i += 1;
            continue;
        }
        let parts = split(line.as_slice(), '\u{1f}');
        let ghost pv = parts@.map_values(|p: Vec<char>| p@);
        assert(pv == split_char(ls@[i as int]@, '\u{1f}'));
        if parts.len() < 2 {
            proof {
                lemma_commits_error_stays(lv, i + 1);
            }
            return Err(BuildError::MissingDate);
        }
        assert(pv[1] == parts@[1]@);
        let date_text = string_of(parts[1].as_slice());
        let day = match parse_iso8601_utc_day(date_text.as_str()) {
            Some(d) => d,
            None => {
                proof {
                    lemma_commits_error_stays(lv, i + 1);
                }
                return Err(BuildError::BadDate);
            },
        };
        if parts.len() < 3 {
            proof {
                lemma_commits_error_stays(lv, i + 1);
            }
            return Err(BuildError::MissingEmail);
        }
        assert(pv[2] == parts@[2]@);
        let email = string_of(parts[2].as_slice());
        let is_merge = if parts.len() >= 4 {
            assert(pv[3] == parts@[3]@);
            has_two_words(parts[3].as_slice())
        } else {
            let none: Vec<char> = Vec::new();
            assert(none@ =~= Seq::<char>::empty());
            has_two_words(none.as_slice())
        };
        out.push(RawCommit { day, email, is_merge });
        assert(out@.map_values(|c: RawCommit| c@) =~= prev.push(
            CommitView { day, email: pv[2], is_merge },
        ));
        i += 1;
    }
    assert(lv.take(i as int) =~= lv);
    Ok(out)
}

// ---------------------------------------------------------------------------
// Tags.
// ---------------------------------------------------------------------------

/// The number of tags per day of the tag date lines (`%(creatordate:short)`,
/// one per tag; blank lines skipped); the error of the first bad line.
pub open spec fn tag_days_of(ls: Seq<Seq<char>>) -> Result<Map<JulianDay, u16>, BuildError>
    decreases ls.len(),
{
    if ls.len() == 0 {
        Ok(Map::empty())
    } else {
        match tag_days_of(ls.drop_last()) {
            Err(e) => Err(e),
            Ok(m) => {
                let t = trim_ws(ls.last());
                if t.len() == 0 {
                    Ok(m)
                } else {
                    match ymd_day_of(t) {
                        None => Err(BuildError::BadTagDate),
                        Some(d) => {
                            let c: u16 = if m.contains_key(d) {
                                m[d]
                            } else {
                                0
                            };
                            if c == 65535 {
                                Err(BuildError::TooManyTags)
                            } else {
                                Ok(m.insert(d, (c + 1) as u16))
                            }
                        },
                    }
                }
            },
        }
    }
}

proof fn lemma_tag_error_stays(ls: Seq<Seq<char>>, k: int)
    requires
        0 <= k <= ls.len(),
        tag_days_of(ls.take(k)) is Err,
    ensures
        tag_days_of(ls) == tag_days_of(ls.take(k)),
    decreases ls.len() - k,
{
    if k < ls.len() {
        assert(ls.take(k + 1).drop_last() =~= ls.take(k));
        lemma_tag_error_stays(ls, k + 1);
    } else {
        assert(ls.take(k) =~= ls);
    }
}

/// Counts the tags of each day.
pub fn parse_tag_days(tag_dates: &str) -> (r: Result<DayMap<u16>, BuildError>)
    ensures
        match tag_days_of(split_lines(tag_dates@)) {
            Ok(m) => r matches Ok(dm) && dm.wf() && dm.as_map() == m,
            Err(e) => r matches Err(x) && x == e,
        },
{
    let text = chars_of(tag_dates);
    let ls = lines(text.as_slice());
    let ghost lv = ls@.map_values(|p: Vec<char>| p@);
    let mut days: DayMap<u16> = DayMap::new();
    let mut i: usize = 0;
    assert(lv.take(0) =~= Seq::<Seq<char>>::empty());
    while i < ls.len()
        invariant
            i <= ls@.len(),
            lv == ls@.map_values(|p: Vec<char>| p@),
            lv == split_lines(tag_dates@),
            days.wf(),
            tag_days_of(lv.take(i as int)) == Ok::<Map<JulianDay, u16>, BuildError>(days.as_map()),
        decreases ls.len() - i,
    {
        assert(lv.take(i + 1).drop_last() =~= lv.take(i as int));
        assert(lv.take(i + 1).last() == ls@[i as int]@);
        let t = trim(ls[i].as_slice());
        if t.len() == 0 {
            i += 1;
            continue;
        }
        let d = match parse_ymd(string_of(t.as_slice()).as_str()) {
            Some(d) => d,
            None => {
                proof {
                    lemma_tag_error_stays(lv, i + 1);
                }
                return Err(BuildError::BadTagDate);
            },
        };
        let ghost before = days.as_map();
        let c: u16 = match days.remove(d) {
            Some(c) => c,
            None => 0,
        };
        if c == 65535 {
            proof {
                lemma_tag_error_stays(lv, i + 1);
            }
            return Err(BuildError::TooManyTags);
        }
        days.insert(d, c + 1);
        assert(days.as_map() =~= before.insert(d, (c + 1) as u16));
        i += 1;
    }
    assert(lv.take(i as int) =~= lv);
    Ok(days)
}

// ---------------------------------------------------------------------------
// Authors.
// ---------------------------------------------------------------------------

/// The distinct e-mails in the order they first come.
pub open spec fn first_seen(es: Seq<Seq<char>>) -> Seq<Seq<char>>
    decreases es.len(),
{
    if es.len() == 0 {
        Seq::empty()
    } else {
        let p = first_seen(es.drop_last());
        if p.contains(es.last()) {
            p
        } else {
            p.push(es.last())
        }
    }
}

/// The distinct e-mails hold each e-mail of the list once.
pub proof fn lemma_first_seen(es: Seq<Seq<char>>)
    ensures
        first_seen(es).no_duplicates(),
        forall|e: Seq<char>| first_seen(es).contains(e) <==> es.contains(e),
    decreases es.len(),
{
    if es.len() > 0 {
        let d = es.drop_last();
        let l = es.last();
        lemma_first_seen(d);
        let p = first_seen(d);
        assert forall|e: Seq<char>| es.contains(e) <==> (d.contains(e) || e == l) by {
            if es.contains(e) {
                let k = choose|k: int| 0 <= k < es.len() && es[k] == e;
                if k < d.len() {
                    assert(d[k] == e);
                }
            }
            if d.contains(e) {
                let k = choose|k: int| 0 <= k < d.len() && d[k] == e;
                assert(es[k] == e);
            }
            if e == l {
                assert(es[es.len() - 1] == e);
            }
        }
        if !p.contains(l) {
            let q = p.push(l);
            assert forall|e: Seq<char>| q.contains(e) <==> (p.contains(e) || e == l) by {
                if q.contains(e) {
                    let k = choose|k: int| 0 <= k < q.len() && q[k] == e;
                    if k < p.len() {
                        assert(p[k] == e);
                    }
                }
                if p.contains(e) {
                    let k = choose|k: int| 0 <= k < p.len() && p[k] == e;
                    assert(q[k] == e);
                }
                if e == l {
                    assert(q[p.len() as int] == e);
                }
            }
            assert forall|i: int, j: int| 0 <= i < q.len() && 0 <= j < q.len() && i != j implies q[i]
                != q[j] by {
                if i < p.len() && j < p.len() {
                } else if i < p.len() {
                    assert(p.contains(q[i]));
                } else if j < p.len() {
                    assert(p.contains(q[j]));
                }
            }
        }
    }
}

/// Where `e` is in `s`.
pub open spec fn position(s: Seq<Seq<char>>, e: Seq<char>) -> int {
    choose|k: int| 0 <= k < s.len() && s[k] == e
}

/// The strings as text.
pub open spec fn texts(v: Seq<String>) -> Seq<Seq<char>> {
    v.map_values(|s: String| s@)
}

/// The distinct strings in the order they first come.
fn first_seen_of(es: &[String]) -> (r: Vec<String>)
    ensures
        texts(r@) == first_seen(texts(es@)),
{
    let mut out: Vec<String> = Vec::new();
    let mut i: usize = 0;
    assert(texts(es@).take(0) =~= Seq::<Seq<char>>::empty());
    assert(texts(out@) =~= Seq::<Seq<char>>::empty());
    while i < es.len()
        invariant
            i <= es@.len(),
            texts(out@) == first_seen(texts(es@).take(i as int)),
        decreases es.len() - i,
    {
        let ghost t = texts(out@);
        assert(texts(es@).take(i + 1).drop_last() =~= texts(es@).take(i as int));
        assert(texts(es@).take(i + 1).last() == es@[i as int]@);
        let mut found = false;
        let mut j: usize = 0;
        while j < out.len()
            invariant
                i < es@.len(),
                j <= out@.len(),
                t == texts(out@),
                found ==> t.contains(es@[i as int]@),
                !found ==> forall|k: int| 0 <= k < j ==> t[k] != es@[i as int]@,
            decreases out.len() - j,
        {
            if str_eq(out[j].as_str(), es[i].as_str()) {
                assert(t[j as int] == es@[i as int]@);
                found = true;
            }
            j += 1;
        }
        if !found {
            out.push(es[i].clone());
            assert(texts(out@) =~= t.push(es@[i as int]@));
        }
        i += 1;
    }
    assert(texts(es@).take(i as int) =~= texts(es@));
    out
}

/// The position of `e` among distinct `authors` that hold it.
fn position_of(authors: &[String], e: &str) -> (r: usize)
    requires
        texts(authors@).no_duplicates(),
        texts(authors@).contains(e@),
    ensures
        r == position(texts(authors@), e@),
        r < authors@.len(),
{
    let ghost a = texts(authors@);
    let mut j: usize = 0;
    while j < authors.len()
        invariant
            j <= authors@.len(),
            a == texts(authors@),
            a.contains(e@),
            a.no_duplicates(),
            forall|k: int| 0 <= k < j ==> a[k] != e@,
        decreases authors.len() - j,
    {
        if str_eq(authors[j].as_str(), e) {
            assert(a[j as int] == e@);
            let ghost p = position(a, e@);
            assert(a[p] == e@);
            assert(p == j);
            return j;
        }
        j += 1;
    }
    assert(false);
    0
}

// ---------------------------------------------------------------------------
// Entries.
// ---------------------------------------------------------------------------

/// `v` is strictly increasing.
pub open spec fn increasing(v: Seq<u16>) -> bool {
    forall|i: int, j: int| 0 <= i < j < v.len() ==> v[i] < v[j]
}

/// The distinct values of `s` in increasing order.
fn sorted_distinct(s: &[u16]) -> (r: Vec<u16>)
    ensures
        increasing(r@),
        forall|x: u16| r@.contains(x) <==> s@.contains(x),
{
    let mut out: Vec<u16> = Vec::new();
    let mut i: usize = 0;
    while i < s.len()
        invariant
            i <= s@.len(),
            increasing(out@),
            forall|x: u16| out@.contains(x) <==> s@.take(i as int).contains(x),
        decreases s.len() - i,
    {
        let x = s[i];
        let mut k: usize = 0;
        while k < out.len() && out[k] < x
            invariant
                k <= out@.len(),
                forall|j: int| 0 <= j < k ==> out@[j] < x,
            decreases out.len() - k,
        {
            k += 1;
        }
        let ghost before = out@;
        let ghost t0 = s@.take(i as int);
        let ghost t1 = s@.take(i + 1);
        assert(t1 =~= t0.push(x));
        assert forall|y: u16| t1.contains(y) <==> (t0.contains(y) || y == x) by {
            if t1.contains(y) {
                let q = choose|q: int| 0 <= q < t1.len() && t1[q] == y;
                if q < t0.len() {
                    assert(t0[q] == y);
                }
            }
            if t0.contains(y) {
                let q = choose|q: int| 0 <= q < t0.len() && t0[q] == y;
                assert(t1[q] == y);
            }
            if y == x {
                assert(t1[t0.len() as int] == y);
            }
        }
        assert forall|y: u16| before.contains(y) <==> t0.contains(y) by {}
        if k < out.len() && out[k] == x {
            assert(out@[k as int] == x);
            assert(before.contains(x));
        } else {
            out.insert(k, x);
            assert forall|a: int, b: int| 0 <= a < b < out@.len() implies out@[a] < out@[b] by {
                if b < k {
                } else if a > k {
                    assert(out@[a] == before[a - 1] && out@[b] == before[b - 1]);
                } else if a == k {
                    assert(out@[b] == before[b - 1]);
                    assert(before[k as int] > x);
                    if b - 1 > k {
                        assert(before[k as int] < before[b - 1]);
                    }
                } else {
                    assert(out@[a] == before[a]);
                }
            }
            assert forall|y: u16| out@.contains(y) <==> (before.contains(y) || y == x) by {
                if out@.contains(y) {
                    let q = choose|q: int| 0 <= q < out@.len() && out@[q] == y;
                    if q < k {
                        assert(before[q] == y);
                    } else if q > k {
                        assert(before[q - 1] == y);
                    }
                }
                if before.contains(y) {
                    let q = choose|q: int| 0 <= q < before.len() && before[q] == y;
                    if q < k {
                        assert(out@[q] == y);
                    } else {
                        assert(out@[q + 1] == y);
                    }
                }
                if y == x {
                    assert(out@[k as int] == y);
                }
            }
        }
        assert forall|y: u16| out@.contains(y) <==> t1.contains(y) by {
            assert(before.contains(y) <==> t0.contains(y));
        }
        i += 1;
    }
    assert(s@.take(i as int) =~= s@);
    out
}

/// A day's distance from the previous one, held in 16 bits.
pub open spec fn clamp_delta(day: int, prev: int) -> u16 {
    if day - prev < 0 {
        0
    } else if day - prev > 65535 {
        65535
    } else {
        (day - prev) as u16
    }
}

fn delta_of(day: JulianDay, prev: JulianDay) -> (r: u16)
    ensures
        r == clamp_delta(day as int, prev as int),
{
    let d: i64 = day as i64 - prev as i64;
    if d < 0 {
        0
    } else if d > 65535 {
        65535
    } else {
        d as u16
    }
}

/// The data of one day: commits and merges (saturated at 65535) and the
/// author e-mails of its commits, in order.
pub type DayData = (u16, u16, Seq<Seq<char>>);

/// The author ids of e-mails: their positions in `authors`, in 16 bits.
pub open spec fn ids_of(authors: Seq<Seq<char>>, es: Seq<Seq<char>>) -> Seq<u16> {
    es.map_values(|e: Seq<char>| position(authors, e) as u16)
}

/// `ds` lists the days of `dom` in increasing order.
pub open spec fn days_in_order(ds: Seq<JulianDay>, dom: Set<JulianDay>) -> bool {
    &&& forall|i: int, j: int| 0 <= i < j < ds.len() ==> ds[i] < ds[j]
    &&& forall|d: JulianDay| dom.contains(d) <==> ds.contains(d)
}

/// The entries describe the days `ds` of `m`: each its distance from the
/// previous day (from `first` for the first one), its counts, and the
/// distinct ids of its authors in increasing order.
pub open spec fn entries_describe(
    es: Seq<DayEntryView>,
    ds: Seq<JulianDay>,
    m: Map<JulianDay, DayData>,
    first: int,
    authors: Seq<Seq<char>>,
) -> bool {
    &&& es.len() == ds.len()
    &&& forall|i: int|
        #![trigger es[i]]
        0 <= i < es.len() ==> {
            &&& es[i].delta == clamp_delta(
                ds[i] as int,
                if i == 0 {
                    first
                } else {
                    ds[i - 1] as int
                },
            )
            &&& es[i].commits == m[ds[i]].0
            &&& es[i].merges == m[ds[i]].1
            &&& increasing(es[i].authors)
            &&& forall|x: u16| es[i].authors.contains(x) <==> ids_of(authors, m[ds[i]].2).contains(x)
        }
}

/// The tag entries describe the days `ds` of `m` the same way.
pub open spec fn tags_describe(
    ts: Seq<TagEntry>,
    ds: Seq<JulianDay>,
    m: Map<JulianDay, u16>,
    first: int,
) -> bool {
    &&& ts.len() == ds.len()
    &&& forall|i: int|
        #![trigger ts[i]]
        0 <= i < ts.len() ==> ts[i].delta == clamp_delta(
            ds[i] as int,
            if i == 0 {
                first
            } else {
                ds[i - 1] as int
            },
        ) && ts[i].count == m[ds[i]]
}

/// The e-mails of the pairs' days, one day after the other.
pub open spec fn day_emails(pairs: Seq<(JulianDay, (u16, u16, Vec<String>))>) -> Seq<Seq<char>>
    decreases pairs.len(),
{
    if pairs.len() == 0 {
        Seq::empty()
    } else {
        day_emails(pairs.drop_last()) + texts(pairs.last().1.2@)
    }
}

/// The data of the pairs' days as a map.
pub open spec fn pairs_data(pairs: Seq<(JulianDay, (u16, u16, Vec<String>))>) -> Map<JulianDay, DayData> {
    map_of(pairs).map_values(|v: (u16, u16, Vec<String>)| (v.0, v.1, texts(v.2@)))
}

/// The days of the pairs.
pub open spec fn pair_days<V>(pairs: Seq<(JulianDay, V)>) -> Seq<JulianDay> {
    pairs.map_values(|p: (JulianDay, V)| p.0)
}

proof fn lemma_pair_days_in_order<V>(pairs: Seq<(JulianDay, V)>)
    requires
        strictly_sorted(pairs),
    ensures
        days_in_order(pair_days(pairs), map_of(pairs).dom()),
{
    assert forall|d: JulianDay| map_of(pairs).dom().contains(d) <==> pair_days(pairs).contains(d) by {
        lemma_map_of_dom(pairs, d);
        if pair_days(pairs).contains(d) {
            let i = choose|i: int| 0 <= i < pair_days(pairs).len() && pair_days(pairs)[i] == d;
            assert(pairs[i].0 == d);
        }
        if exists|i: int| 0 <= i < pairs.len() && pairs[i].0 == d {
            let i = choose|i: int| 0 <= i < pairs.len() && pairs[i].0 == d;
            assert(pair_days(pairs)[i] == d);
        }
    }
}

/// The entries of the days, in day order, their authors numbered by
/// their position in `authors`.
fn make_entries(
    pairs: &[(JulianDay, (u16, u16, Vec<String>))],
    first: JulianDay,
    authors: &[String],
) -> (r: Vec<DayEntry>)
    requires
        strictly_sorted(pairs@),
        texts(authors@).no_duplicates(),
        forall|e: Seq<char>| day_emails(pairs@).contains(e) ==> texts(authors@).contains(e),
    ensures
        entries_describe(
            r@.map_values(|e: DayEntry| e@),
            pair_days(pairs@),
            pairs_data(pairs@),
            first as int,
            texts(authors@),
        ),
{
    let ghost a = texts(authors@);
    let ghost ds = pair_days(pairs@);
    let ghost m = pairs_data(pairs@);
    let mut out: Vec<DayEntry> = Vec::new();
    let mut prev: JulianDay = first;
    let mut i: usize = 0;
    while i < pairs.len()
        invariant
            i <= pairs@.len(),
            a == texts(authors@),
            a.no_duplicates(),
            ds == pair_days(pairs@),
            m == pairs_data(pairs@),
            strictly_sorted(pairs@),
            forall|e: Seq<char>| day_emails(pairs@).contains(e) ==> a.contains(e),
            prev == if i == 0 {
                first
            } else {
                ds[i - 1]
            },
            out@.len() == i,
            forall|k: int|
                #![trigger out@[k]]
                0 <= k < i ==> {
                    let e = out@[k]@;
                    &&& e.delta == clamp_delta(
                        ds[k] as int,
                        if k == 0 {
                            first as int
                        } else {
                            ds[k - 1] as int
                        },
                    )
                    &&& e.commits == m[ds[k]].0
                    &&& e.merges == m[ds[k]].1
                    &&& increasing(e.authors)
                    &&& forall|x: u16| e.authors.contains(x) <==> ids_of(a, m[ds[k]].2).contains(x)
                },
        decreases pairs.len() - i,
    {
        let (day, (commits, merges, emails)) = &pairs[i];
        proof {
            lemma_map_of_at(pairs@, i as int);
            assert(m[ds[i as int]] == (*commits, *merges, texts(emails@)));
            assert forall|e: Seq<char>| texts(emails@).contains(e) implies a.contains(e) by {
                lemma_day_emails_contains(pairs@, i as int, e);
            }
        }
        let mut ids: Vec<u16> = Vec::new();
        let mut j: usize = 0;
        while j < emails.len()
            invariant
                j <= emails@.len(),
                a == texts(authors@),
                a.no_duplicates(),
                forall|e: Seq<char>| texts(emails@).contains(e) ==> a.contains(e),
                ids@ == ids_of(a, texts(emails@)).take(j as int),
            decreases emails.len() - j,
        {
            assert(texts(emails@)[j as int] == emails@[j as int]@);
            let p = position_of(authors, emails[j].as_str());
            ids.push(p as u16);
            assert(ids@ =~= ids_of(a, texts(emails@)).take(j + 1));
            j += 1;
        }
        assert(ids@ =~= ids_of(a, texts(emails@)));
        let sorted = sorted_distinct(ids.as_slice());
        let delta = delta_of(*day, prev);
        out.push(DayEntry { delta, commits: *commits, merges: *merges, authors: sorted });
        prev = *day;
        i += 1;
    }
    proof {
        let ev = out@.map_values(|e: DayEntry| e@);
        assert forall|k: int| 0 <= k < ev.len() implies #[trigger] ev[k] == out@[k]@ by {}
    }
    out
}

proof fn lemma_day_emails_contains(
    pairs: Seq<(JulianDay, (u16, u16, Vec<String>))>,
    i: int,
    e: Seq<char>,
)
    requires
        0 <= i < pairs.len(),
        texts(pairs[i].1.2@).contains(e),
    ensures
        day_emails(pairs).contains(e),
    decreases pairs.len(),
{
    let last = texts(pairs.last().1.2@);
    let prev = day_emails(pairs.drop_last());
    assert(day_emails(pairs) == prev + last);
    if i == pairs.len() - 1 {
        let k = choose|k: int| 0 <= k < last.len() && last[k] == e;
        assert((prev + last)[prev.len() + k] == e);
    } else {
        assert(pairs.drop_last()[i] == pairs[i]);
        lemma_day_emails_contains(pairs.drop_last(), i, e);
        let k = choose|k: int| 0 <= k < prev.len() && prev[k] == e;
        assert((prev + last)[k] == e);
    }
}

/// The tag entries of the days, in day order.
fn make_tags(pairs: &[(JulianDay, u16)], first: JulianDay) -> (r: Vec<TagEntry>)
    requires
        strictly_sorted(pairs@),
    ensures
        tags_describe(r@, pair_days(pairs@), map_of(pairs@), first as int),
{
    let ghost ds = pair_days(pairs@);
    let mut out: Vec<TagEntry> = Vec::new();
    let mut prev: JulianDay = first;
    let mut i: usize = 0;
    while i < pairs.len()
        invariant
            i <= pairs@.len(),
            ds == pair_days(pairs@),
            strictly_sorted(pairs@),
            prev == if i == 0 {
                first
            } else {
                ds[i - 1]
            },
            out@.len() == i,
            forall|k: int|
                #![trigger out@[k]]
                0 <= k < i ==> out@[k].delta == clamp_delta(
                    ds[k] as int,
                    if k == 0 {
                        first as int
                    } else {
                        ds[k - 1] as int
                    },
                ) && out@[k].count == map_of(pairs@)[ds[k]],
        decreases pairs.len() - i,
    {
        proof {
            lemma_map_of_at(pairs@, i as int);
        }
        let (day, count) = pairs[i];
        let delta = delta_of(day, prev);
        out.push(TagEntry { delta, count });
        prev = day;
        i += 1;
    }
    out
}

// ---------------------------------------------------------------------------
// Building.
// ---------------------------------------------------------------------------

/// `x + 1`, held at 65535.
pub open spec fn sat_inc(x: u16) -> u16 {
    if x == 65535 {
        65535
    } else {
        (x + 1) as u16
    }
}

/// The data of each day of the commits: commits and merges, each held at
/// 65535, and the authors' e-mails in commit order.
pub open spec fn commit_days(cs: Seq<CommitView>) -> Map<JulianDay, DayData>
    decreases cs.len(),
{
    if cs.len() == 0 {
        Map::empty()
    } else {
        let m = commit_days(cs.drop_last());
        let c = cs.last();
        let old: DayData = if m.contains_key(c.day) {
            m[c.day]
        } else {
            (0u16, 0u16, Seq::empty())
        };
        m.insert(
            c.day,
            (
                sat_inc(old.0),
                if c.is_merge {
                    sat_inc(old.1)
                } else {
                    old.1
                },
                old.2.push(c.email),
            ),
        )
    }
}

/// The earliest day of a nonempty list of commits.
pub open spec fn oldest_day(cs: Seq<CommitView>) -> JulianDay
    decreases cs.len(),
{
    if cs.len() <= 1 {
        cs[0].day
    } else {
        let o = oldest_day(cs.drop_last());
        if cs.last().day < o {
            cs.last().day
        } else {
            o
        }
    }
}

/// The author e-mails of the commits, in order.
pub open spec fn emails_of(cs: Seq<CommitView>) -> Seq<Seq<char>> {
    cs.map_values(|c: CommitView| c.email)
}

/// The data of days held in a map, as text.
pub open spec fn data_of_map(m: Map<JulianDay, (u16, u16, Vec<String>)>) -> Map<JulianDay, DayData> {
    m.map_values(|v: (u16, u16, Vec<String>)| (v.0, v.1, texts(v.2@)))
}

/// `c` is the cache of the commits `cs` and the tag counts `tags`, built
/// on `today`: it starts at the oldest commit, lists the authors in the
/// order they first come, and describes every commit day and tag day in
/// order.
pub open spec fn built_from(c: CacheView, cs: Seq<CommitView>, tags: Map<JulianDay, u16>, today: JulianDay) -> bool {
    let first = oldest_day(cs);
    let authors = first_seen(emails_of(cs));
    &&& c.last_updated == today
    &&& c.oldest_commit == first
    &&& c.first_entry == first
    &&& c.authors == authors
    &&& exists|ds: Seq<JulianDay>|
        days_in_order(ds, commit_days(cs).dom()) && entries_describe(
            c.entries,
            ds,
            commit_days(cs),
            first as int,
            authors,
        )
    &&& exists|ts: Seq<JulianDay>|
        days_in_order(ts, tags.dom()) && tags_describe(c.tags, ts, tags, first as int)
}

proof fn lemma_commit_days_emails(cs: Seq<CommitView>, d: JulianDay, e: Seq<char>)
    requires
        commit_days(cs).contains_key(d),
        commit_days(cs)[d].2.contains(e),
    ensures
        emails_of(cs).contains(e),
    decreases cs.len(),
{
    let prev = cs.drop_last();
    let m = commit_days(prev);
    let c = cs.last();
    if d == c.day {
        let old: DayData = if m.contains_key(c.day) {
            m[c.day]
        } else {
            (0u16, 0u16, Seq::empty())
        };
        let es = old.2.push(c.email);
        let k = choose|k: int| 0 <= k < es.len() && es[k] == e;
        if k < old.2.len() {
            assert(old.2[k] == e);
            lemma_commit_days_emails(prev, d, e);
            let q = choose|q: int| 0 <= q < emails_of(prev).len() && emails_of(prev)[q] == e;
            assert(emails_of(cs)[q] == e);
        } else {
            assert(emails_of(cs)[cs.len() - 1] == e);
        }
    } else {
        lemma_commit_days_emails(prev, d, e);
        let q = choose|q: int| 0 <= q < emails_of(prev).len() && emails_of(prev)[q] == e;
        assert(emails_of(cs)[q] == e);
    }
}

proof fn lemma_day_emails_from(
    pairs: Seq<(JulianDay, (u16, u16, Vec<String>))>,
    e: Seq<char>,
)
    requires
        day_emails(pairs).contains(e),
    ensures
        exists|i: int| 0 <= i < pairs.len() && texts(#[trigger] pairs[i].1.2@).contains(e),
    decreases pairs.len(),
{
    let prev = day_emails(pairs.drop_last());
    let last = texts(pairs.last().1.2@);
    let k = choose|k: int| 0 <= k < (prev + last).len() && (prev + last)[k] == e;
    if k < prev.len() {
        assert(prev[k] == e);
        lemma_day_emails_from(pairs.drop_last(), e);
        let i = choose|i: int| 0 <= i < pairs.drop_last().len() && texts(#[trigger] pairs.drop_last()[i].1.2@).contains(e);
        assert(pairs.drop_last()[i] == pairs[i]);
    } else {
        assert(last[k - prev.len()] == e);
        assert(texts(pairs[pairs.len() - 1].1.2@).contains(e));
    }
}

/// The cache of the commits `commits` and the tag dates `tag_dates`,
/// built on `today`.
pub fn build_cache(commits: &[RawCommit], tag_dates: &str, today: JulianDay) -> (r: Result<Cache, BuildError>)
    ensures
        commits@.len() == 0 ==> r == Err::<Cache, BuildError>(BuildError::NoCommits),
        commits@.len() > 0 ==> match tag_days_of(split_lines(tag_dates@)) {
            Err(e) => r == Err::<Cache, BuildError>(e),
            Ok(tm) => r matches Ok(c) && built_from(
                c@,
                commits@.map_values(|c: RawCommit| c@),
                tm,
                today,
            ),
        },
{
    if commits.len() == 0 {
        return Err(BuildError::NoCommits);
    }
    let ghost cs = commits@.map_values(|c: RawCommit| c@);
    let mut emails: Vec<String> = Vec::new();
    let mut days: DayMap<(u16, u16, Vec<String>)> = DayMap::new();
    let mut oldest: JulianDay = commits[0].day;
    let mut i: usize = 0;
    assert(data_of_map(days.as_map()) =~= Map::<JulianDay, DayData>::empty());
    assert(cs.take(0) =~= Seq::<CommitView>::empty());
    while i < commits.len()
        invariant
            0 < commits@.len(),
            i <= commits@.len(),
            cs == commits@.map_values(|c: RawCommit| c@),
            days.wf(),
            data_of_map(days.as_map()) == commit_days(cs.take(i as int)),
            texts(emails@) == emails_of(cs.take(i as int)),
            i > 0 ==> oldest == oldest_day(cs.take(i as int)),
            i == 0 ==> oldest == commits@[0].day,
        decreases commits.len() - i,
    {
        let ghost prev = cs.take(i as int);
        let ghost next = cs.take(i + 1);
        assert(next.drop_last() =~= prev);
        assert(next.last() == commits@[i as int]@);
        let c = &commits[i];
        if c.day < oldest {
            oldest = c.day;
        }
        let ghost e0 = texts(emails@);
        emails.push(c.email.clone());
        assert(texts(emails@) =~= e0.push(c.email@));
        assert(emails_of(next) =~= emails_of(prev).push(c.email@));
        let ghost before = days.as_map();
        let (commits_n, merges_n, mut es) = match days.remove(c.day) {
            Some(v) => v,
            None => (0u16, 0u16, Vec::new()),
        };
        proof {
            let old: DayData = if commit_days(prev).contains_key(c.day) {
                commit_days(prev)[c.day]
            } else {
                (0u16, 0u16, Seq::empty())
            };
            if before.contains_key(c.day) {
                assert(data_of_map(before)[c.day] == old);
            }
            assert(commits_n == old.0 && merges_n == old.1 && texts(es@) == old.2);
        }
        let ghost es0 = texts(es@);
        let k = if commits_n == 65535 {
            65535
        } else {
            commits_n + 1
        };
        let g = if c.is_merge {
            if merges_n == 65535 {
                65535
            } else {
                merges_n + 1
            }
        } else {
            merges_n
        };
        es.push(c.email.clone());
        assert(texts(es@) =~= es0.push(c.email@));
        days.insert(c.day, (k, g, es));
        proof {
            let after = days.as_map();
            assert(after == before.insert(c.day, (k, g, es)));
            assert(data_of_map(after) =~= commit_days(next));
        }
        i += 1;
    }
    assert(cs.take(i as int) =~= cs);
    let authors = first_seen_of(emails.as_slice());
    let tag_days = match parse_tag_days(tag_dates) {
        Ok(t) => t,
        Err(e) => {
            return Err(e);
        },
    };
    let ghost tm = tag_days.as_map();
    let pairs = days.into_pairs();
    let ghost cd = commit_days(cs);
    proof {
        lemma_first_seen(emails_of(cs));
        assert(pairs_data(pairs@) == cd);
        assert forall|e: Seq<char>| day_emails(pairs@).contains(e) implies texts(authors@).contains(
            e,
        ) by {
            lemma_day_emails_from(pairs@, e);
            let q = choose|q: int| 0 <= q < pairs@.len() && texts(#[trigger] pairs@[q].1.2@).contains(e);
            lemma_map_of_at(pairs@, q);
            assert(cd[pairs@[q].0].2 == texts(pairs@[q].1.2@));
            lemma_commit_days_emails(cs, pairs@[q].0, e);
        }
        lemma_pair_days_in_order(pairs@);
        assert(map_of(pairs@).dom() =~= cd.dom());
    }
    let entries = make_entries(pairs.as_slice(), oldest, authors.as_slice());
    let tag_pairs = tag_days.into_pairs();
    proof {
        lemma_pair_days_in_order(tag_pairs@);
    }
    let tags = make_tags(tag_pairs.as_slice(), oldest);
    let cache = Cache {
        last_updated: today,
        oldest_commit: oldest,
        first_entry: oldest,
        authors,
        entries,
        tags,
    };
    proof {
        let cv = cache@;
        assert(cv.authors =~= texts(authors@));
        assert(cv.entries =~= entries@.map_values(|e: DayEntry| e@));
        assert(days_in_order(pair_days(pairs@), cd.dom()));
        assert(days_in_order(pair_days(tag_pairs@), tm.dom()));
    }
    Ok(cache)
}

// ---------------------------------------------------------------------------
// Merging.
// ---------------------------------------------------------------------------

/// The e-mails of the author ids that name an author.
pub open spec fn entry_emails(authors: Seq<Seq<char>>, ids: Seq<u16>) -> Seq<Seq<char>>
    decreases ids.len(),
{
    if ids.len() == 0 {
        Seq::empty()
    } else {
        let p = entry_emails(authors, ids.drop_last());
        if (ids.last() as int) < authors.len() {
            p.push(authors[ids.last() as int])
        } else {
            p
        }
    }
}

/// `m` with the days of the first `n` entries of `c` written over it,
/// each at its day counted from `c.first_entry`.
pub open spec fn lay_entries(m: Map<JulianDay, DayData>, c: CacheView, n: nat) -> Map<JulianDay, DayData>
    decreases n,
{
    if n == 0 {
        m
    } else {
        let e = c.entries[n - 1];
        lay_entries(m, c, (n - 1) as nat).insert(
            day_after(c.first_entry as int, c.entries.take(n as int)) as JulianDay,
            (e.commits, e.merges, entry_emails(c.authors, e.authors)),
        )
    }
}

/// The day of the last of the tag entries `ts`, counting from `first`.
pub open spec fn tag_day_after(first: int, ts: Seq<TagEntry>) -> int
    decreases ts.len(),
{
    if ts.len() == 0 {
        first
    } else {
        tag_day_after(first, ts.drop_last()) + ts.last().delta
    }
}

/// `m` with the tag days of the first `n` tag entries of `c` written over it.
pub open spec fn lay_tags(m: Map<JulianDay, u16>, c: CacheView, n: nat) -> Map<JulianDay, u16>
    decreases n,
{
    if n == 0 {
        m
    } else {
        lay_tags(m, c, (n - 1) as nat).insert(
            tag_day_after(c.first_entry as int, c.tags.take(n as int)) as JulianDay,
            c.tags[n - 1].count,
        )
    }
}

/// The days of a cache and their data (a later entry on the same day wins).
pub open spec fn day_map(c: CacheView) -> Map<JulianDay, DayData> {
    lay_entries(Map::empty(), c, c.entries.len())
}

/// The tag days of a cache and their counts.
pub open spec fn tag_map(c: CacheView) -> Map<JulianDay, u16> {
    lay_tags(Map::empty(), c, c.tags.len())
}

/// The tag days of the cache stay among the days `time` represents.
pub open spec fn tags_in_range(c: CacheView) -> bool {
    &&& MIN_DAY <= c.first_entry
    &&& tag_day_after(c.first_entry as int, c.tags) <= MAX_DAY
}

/// The e-mails of the days `ds` of `m`, one day after the other.
pub open spec fn flat_emails(ds: Seq<JulianDay>, m: Map<JulianDay, DayData>) -> Seq<Seq<char>>
    decreases ds.len(),
{
    if ds.len() == 0 {
        Seq::empty()
    } else {
        flat_emails(ds.drop_last(), m) + m[ds.last()].2
    }
}

/// `r` merges `existing` and `fresh`: the days of both, `fresh` winning on
/// a day both have, described from the first of them; the authors in the
/// order they first come over the days; the tag days of both, `fresh`
/// winning; the oldest commit of both; and `fresh`'s update day.
pub open spec fn merged_from(r: CacheView, existing: CacheView, fresh: CacheView) -> bool {
    let m = lay_entries(day_map(existing), fresh, fresh.entries.len());
    let t = lay_tags(tag_map(existing), fresh, fresh.tags.len());
    &&& r.last_updated == fresh.last_updated
    &&& r.oldest_commit == if existing.oldest_commit <= fresh.oldest_commit {
        existing.oldest_commit
    } else {
        fresh.oldest_commit
    }
    &&& exists|ds: Seq<JulianDay>|
        {
            &&& days_in_order(ds, m.dom())
            &&& r.first_entry == if ds.len() > 0 {
                ds[0]
            } else {
                fresh.first_entry
            }
            &&& r.authors == first_seen(flat_emails(ds, m))
            &&& entries_describe(r.entries, ds, m, r.first_entry as int, r.authors)
        }
    &&& exists|ts: Seq<JulianDay>|
        days_in_order(ts, t.dom()) && tags_describe(r.tags, ts, t, r.first_entry as int)
}

/// Writes the days of `cache` over `days`.
fn lay_cache_entries(days: &mut DayMap<(u16, u16, Vec<String>)>, cache: &Cache)
    requires
        old(days).wf(),
        days_in_range(cache@),
    ensures
        final(days).wf(),
        data_of_map(final(days).as_map()) == lay_entries(
            data_of_map(old(days).as_map()),
            cache@,
            cache@.entries.len(),
        ),
{
    let ghost c = cache@;
    let ghost start = data_of_map(days.as_map());
    let mut cur: JulianDay = cache.first_entry;
    let mut k: usize = 0;
    while k < cache.entries.len()
        invariant
            k <= cache.entries@.len(),
            c == cache@,
            c.entries.len() == cache.entries@.len(),
            days_in_range(c),
            days.wf(),
            cur as int == day_after(c.first_entry as int, c.entries.take(k as int)),
            data_of_map(days.as_map()) == lay_entries(start, c, k as nat),
        decreases cache.entries.len() - k,
    {
        let e = &cache.entries[k];
        proof {
            assert(c.entries[k as int] == e@);
            assert(c.entries.take(k + 1).drop_last() =~= c.entries.take(k as int));
            lemma_day_after_mono(c.first_entry as int, c.entries, k + 1);
        }
        cur = cur + e.delta as i32;
        let mut emails: Vec<String> = Vec::new();
        let mut j: usize = 0;
        while j < e.authors.len()
            invariant
                j <= e.authors@.len(),
                c == cache@,
                texts(emails@) == entry_emails(c.authors, e.authors@.take(j as int)),
            decreases e.authors.len() - j,
        {
            let id = e.authors[j];
            let ghost e0 = texts(emails@);
            assert(e.authors@.take(j + 1).drop_last() =~= e.authors@.take(j as int));
            if (id as usize) < cache.authors.len() {
                emails.push(cache.authors[id as usize].clone());
                assert(texts(emails@) =~= e0.push(c.authors[id as int]));
            }
            j += 1;
        }
        assert(e.authors@.take(j as int) =~= e.authors@);
        let ghost before = days.as_map();
        days.insert(cur, (e.commits, e.merges, emails));
        assert(data_of_map(days.as_map()) =~= data_of_map(before).insert(
            cur,
            (e.commits, e.merges, entry_emails(c.authors, e@.authors)),
        ));
        k += 1;
    }
}

/// Writes the tag days of `cache` over `tags`.
fn lay_cache_tags(tags: &mut DayMap<u16>, cache: &Cache)
    requires
        old(tags).wf(),
        tags_in_range(cache@),
    ensures
        final(tags).wf(),
        final(tags).as_map() == lay_tags(old(tags).as_map(), cache@, cache@.tags.len()),
{
    let ghost c = cache@;
    let ghost start = tags.as_map();
    let mut cur: JulianDay = cache.first_entry;
    let mut k: usize = 0;
    while k < cache.tags.len()
        invariant
            k <= cache.tags@.len(),
            c == cache@,
            tags_in_range(c),
            tags.wf(),
            cur as int == tag_day_after(c.first_entry as int, c.tags.take(k as int)),
            tags.as_map() == lay_tags(start, c, k as nat),
        decreases cache.tags.len() - k,
    {
        let t = cache.tags[k];
        proof {
            assert(c.tags.take(k + 1).drop_last() =~= c.tags.take(k as int));
            lemma_tag_day_after_mono(c.first_entry as int, c.tags, k + 1);
        }
        cur = cur + t.delta as i32;
        tags.insert(cur, t.count);
        k += 1;
    }
}

proof fn lemma_tag_day_after_mono(first: int, ts: Seq<TagEntry>, i: int)
    requires
        0 <= i <= ts.len(),
    ensures
        first <= tag_day_after(first, ts.take(i)) <= tag_day_after(first, ts),
    decreases ts.len() - i,
{
    lemma_tag_day_after_ge(first, ts.take(i));
    if i < ts.len() {
        lemma_tag_day_after_mono(first, ts, i + 1);
        assert(ts.take(i + 1).drop_last() =~= ts.take(i));
    } else {
        assert(ts.take(i) =~= ts);
    }
}

proof fn lemma_tag_day_after_ge(first: int, ts: Seq<TagEntry>)
    ensures
        first <= tag_day_after(first, ts),
    decreases ts.len(),
{
    if ts.len() > 0 {
        lemma_tag_day_after_ge(first, ts.drop_last());
    }
}

proof fn lemma_flat_emails(pairs: Seq<(JulianDay, (u16, u16, Vec<String>))>, k: int)
    requires
        strictly_sorted(pairs),
        0 <= k <= pairs.len(),
    ensures
        day_emails(pairs.take(k)) == flat_emails(pair_days(pairs).take(k), pairs_data(pairs)),
    decreases k,
{
    if k > 0 {
        lemma_flat_emails(pairs, k - 1);
        assert(pairs.take(k).drop_last() =~= pairs.take(k - 1));
        assert(pair_days(pairs).take(k).drop_last() =~= pair_days(pairs).take(k - 1));
        lemma_map_of_at(pairs, k - 1);
    } else {
        assert(pairs.take(0) =~= Seq::<(JulianDay, (u16, u16, Vec<String>))>::empty());
    }
}

/// Merges a refreshed cache into the stored one: the days of both, the
/// fresh one winning on a day both hold; the authors renumbered in the
/// order they first come over the days; and the dated tags of both, the
/// fresh one winning on a day both hold. A `--shallow-since` clone only
/// carries tags whose target is inside the window, so the fresh tags lack
/// every older release.
pub fn merge_caches(existing: Cache, fresh: Cache) -> (r: Cache)
    requires
        days_in_range(existing@),
        days_in_range(fresh@),
        tags_in_range(existing@),
        tags_in_range(fresh@),
    ensures
        merged_from(r@, existing@, fresh@),
{
    let ghost ev = existing@;
    let ghost fv = fresh@;
    let mut days: DayMap<(u16, u16, Vec<String>)> = DayMap::new();
    assert(data_of_map(days.as_map()) =~= Map::<JulianDay, DayData>::empty());
    lay_cache_entries(&mut days, &existing);
    lay_cache_entries(&mut days, &fresh);
    let ghost m = lay_entries(day_map(ev), fv, fv.entries.len());
    assert(data_of_map(days.as_map()) == m);
    let pairs = days.into_pairs();
    let first: JulianDay = if pairs.len() > 0 {
        pairs[0].0
    } else {
        fresh.first_entry
    };
    let mut flat: Vec<String> = Vec::new();
    let mut i: usize = 0;
    proof {
        assert(pairs@.take(0) =~= Seq::<(JulianDay, (u16, u16, Vec<String>))>::empty());
        assert(texts(flat@) =~= Seq::<Seq<char>>::empty());
    }
    while i < pairs.len()
        invariant
            i <= pairs@.len(),
            texts(flat@) == day_emails(pairs@.take(i as int)),
        decreases pairs.len() - i,
    {
        let es = &pairs[i].1.2;
        let ghost f0 = texts(flat@);
        let mut j: usize = 0;
        while j < es.len()
            invariant
                j <= es@.len(),
                texts(flat@) == f0 + texts(es@).take(j as int),
            decreases es.len() - j,
        {
            let ghost fl = texts(flat@);
            flat.push(es[j].clone());
            assert(texts(flat@) =~= fl.push(es@[j as int]@));
            assert(texts(es@).take(j + 1) =~= texts(es@).take(j as int).push(es@[j as int]@));
            assert(texts(flat@) =~= f0 + texts(es@).take(j + 1));
            j += 1;
        }
        assert(texts(es@).take(j as int) =~= texts(es@));
        assert(pairs@.take(i + 1).drop_last() =~= pairs@.take(i as int));
        i += 1;
    }
    assert(pairs@.take(i as int) =~= pairs@);
    let authors = first_seen_of(flat.as_slice());
    proof {
        lemma_first_seen(texts(flat@));
        lemma_flat_emails(pairs@, pairs@.len() as int);
        assert(pair_days(pairs@).take(pairs@.len() as int) =~= pair_days(pairs@));
        lemma_pair_days_in_order(pairs@);
        assert(map_of(pairs@).dom() =~= m.dom());
    }
    let entries = make_entries(pairs.as_slice(), first, authors.as_slice());
    let mut tag_days: DayMap<u16> = DayMap::new();
    lay_cache_tags(&mut tag_days, &existing);
    lay_cache_tags(&mut tag_days, &fresh);
    let tag_pairs = tag_days.into_pairs();
    proof {
        lemma_pair_days_in_order(tag_pairs@);
    }
    let tags = make_tags(tag_pairs.as_slice(), first);
    let oldest = if existing.oldest_commit <= fresh.oldest_commit {
        existing.oldest_commit
    } else {
        fresh.oldest_commit
    };
    let r = Cache {
        last_updated: fresh.last_updated,
        oldest_commit: oldest,
        first_entry: first,
        authors,
        entries,
        tags,
    };
    proof {
        let rv = r@;
        let ds = pair_days(pairs@);
        assert(rv.authors =~= texts(authors@));
        assert(rv.entries =~= entries@.map_values(|e: DayEntry| e@));
        assert(pairs_data(pairs@) == m);
        if ds.len() > 0 {
            assert(ds[0] == pairs@[0].0);
        }
        assert(days_in_order(ds, m.dom()));
        assert(days_in_order(pair_days(tag_pairs@), map_of(tag_pairs@).dom()));
        let t = lay_tags(tag_map(ev), fv, fv.tags.len());
        assert(map_of(tag_pairs@) == t);
        assert(rv.first_entry == if ds.len() > 0 {
            ds[0]
        } else {
            fv.first_entry
        });
        assert(rv.authors == first_seen(flat_emails(ds, m)));
        assert(entries_describe(rv.entries, ds, m, rv.first_entry as int, rv.authors));
        assert(tags_describe(rv.tags, pair_days(tag_pairs@), t, rv.first_entry as int));
    }
    r
}

proof fn lemma_lay_entries_union(m: Map<JulianDay, DayData>, c: CacheView, n: nat)
    ensures
        lay_entries(m, c, n) == m.union_prefer_right(lay_entries(Map::empty(), c, n)),
    decreases n,
{
    if n > 0 {
        lemma_lay_entries_union(m, c, (n - 1) as nat);
        assert(lay_entries(m, c, n) =~= m.union_prefer_right(lay_entries(Map::empty(), c, n)));
    } else {
        assert(m.union_prefer_right(Map::<JulianDay, DayData>::empty()) =~= m);
    }
}

proof fn lemma_lay_tags_union(m: Map<JulianDay, u16>, c: CacheView, n: nat)
    ensures
        lay_tags(m, c, n) == m.union_prefer_right(lay_tags(Map::empty(), c, n)),
    decreases n,
{
    if n > 0 {
        lemma_lay_tags_union(m, c, (n - 1) as nat);
        assert(lay_tags(m, c, n) =~= m.union_prefer_right(lay_tags(Map::empty(), c, n)));
    } else {
        assert(m.union_prefer_right(Map::<JulianDay, u16>::empty()) =~= m);
    }
}

/// Merging unites the two caches: the days it describes are the days of
/// both, the fresh cache's data winning on a day both hold, and its tag
/// days are the tag days of both, the fresh cache's count winning.
pub proof fn lemma_merge_unites(existing: CacheView, fresh: CacheView)
    ensures
        lay_entries(day_map(existing), fresh, fresh.entries.len()) == day_map(
            existing,
        ).union_prefer_right(day_map(fresh)),
        lay_tags(tag_map(existing), fresh, fresh.tags.len()) == tag_map(existing).union_prefer_right(
            tag_map(fresh),
        ),
{
    lemma_lay_entries_union(day_map(existing), fresh, fresh.entries.len());
    lemma_lay_tags_union(tag_map(existing), fresh, fresh.tags.len());
}

/// A tag day of the stored cache that the fresh one lacks (an older
/// release outside a shallow clone's window) stays in the merged cache
/// with its count.
pub proof fn lemma_merge_keeps_stored_tags(
    r: CacheView,
    existing: CacheView,
    fresh: CacheView,
    day: JulianDay,
)
    requires
        merged_from(r, existing, fresh),
        tag_map(existing).contains_key(day),
        !tag_map(fresh).contains_key(day),
    ensures
        exists|i: int| 0 <= i < r.tags.len() && r.tags[i].count == tag_map(existing)[day],
{
    lemma_merge_unites(existing, fresh);
    let t = lay_tags(tag_map(existing), fresh, fresh.tags.len());
    let ts = choose|ts: Seq<JulianDay>|
        days_in_order(ts, t.dom()) && tags_describe(r.tags, ts, t, r.first_entry as int);
    assert(t.contains_key(day));
    assert(ts.contains(day));
    let i = choose|i: int| 0 <= i < ts.len() && ts[i] == day;
    assert(r.tags[i].count == t[day]);
}

// ---------------------------------------------------------------------------
// Refreshing.
// ---------------------------------------------------------------------------

/// What to do for a repository, given the cache stored for it.
#[derive(Clone, Copy, Debug, PartialEq, Eq)]
pub enum RefreshPlan {
    /// The stored cache is up to date.
    Reuse,
    /// Clone the history since the stored cache's update day.
    CloneSince(JulianDay),
    /// No usable stored cache: clone the whole history.
    CloneAll,
}

/// Reuse a cache updated today (or later), refresh an older one from its
/// update day, and build one when none could be read.
pub fn plan_refresh(stored: Option<&Cache>, today: JulianDay) -> (r: RefreshPlan)
    ensures
        r == match stored {
            None => RefreshPlan::CloneAll,
            Some(c) => if c.last_updated >= today {
                RefreshPlan::Reuse
            } else {
                RefreshPlan::CloneSince(c.last_updated)
            },
        },
{
    match stored {
        None => RefreshPlan::CloneAll,
        Some(c) => if c.last_updated >= today {
            RefreshPlan::Reuse
        } else {
            RefreshPlan::CloneSince(c.last_updated)
        },
    }
}

/// The days of the cache, entries and tags, fall among the days `time`
/// represents.
pub fn fits_calendar(cache: &Cache) -> (r: bool)
    ensures
        r == (days_in_range(cache@) && tags_in_range(cache@)),
{
    let ghost c = cache@;
    if cache.first_entry < crate::dates::MIN_DAY || cache.first_entry > MAX_DAY {
        proof {
            if cache.first_entry > MAX_DAY {
                crate::gitcache::derive::lemma_day_after_ge(c.first_entry as int, c.entries);
                lemma_tag_day_after_ge(c.first_entry as int, c.tags);
            }
        }
        return false;
    }
    let mut cur: i64 = cache.first_entry as i64;
    let mut k: usize = 0;
    while k < cache.entries.len()
        invariant
            k <= cache.entries@.len(),
            c == cache@,
            c.entries.len() == cache.entries@.len(),
            cur as int == day_after(c.first_entry as int, c.entries.take(k as int)),
            cur <= MAX_DAY,
        decreases cache.entries.len() - k,
    {
        assert(c.entries[k as int] == cache.entries@[k as int]@);
        assert(c.entries.take(k + 1).drop_last() =~= c.entries.take(k as int));
        cur = cur + cache.entries[k].delta as i64;
        if cur > MAX_DAY as i64 {
            proof {
                lemma_day_after_mono(c.first_entry as int, c.entries, k + 1);
            }
            return false;
        }
        k += 1;
    }
    assert(c.entries.take(k as int) =~= c.entries);
    let mut cur: i64 = cache.first_entry as i64;
    let mut k: usize = 0;
    while k < cache.tags.len()
        invariant
            k <= cache.tags@.len(),
            c == cache@,
            cur as int == tag_day_after(c.first_entry as int, c.tags.take(k as int)),
            cur <= MAX_DAY,
        decreases cache.tags.len() - k,
    {
        assert(c.tags.take(k + 1).drop_last() =~= c.tags.take(k as int));
        cur = cur + cache.tags[k].delta as i64;
        if cur > MAX_DAY as i64 {
            proof {
                lemma_tag_day_after_mono(c.first_entry as int, c.tags, k + 1);
            }
            return false;
        }
        k += 1;
    }
    assert(c.tags.take(k as int) =~= c.tags);
    true
}

/// The cache after a clone: the fresh one when nothing was stored, the
/// merge of both after an incremental clone, and the stored one marked
/// as updated today when the clone's window held no commit. `fetched` is
/// what the clone downloaded. A cold clone without commits is an error.
pub fn finish_refresh(stored: Option<Cache>, fresh: Option<Cache>, today: JulianDay, fetched: u64) -> (r:
    Result<(Cache, CacheOutcome), BuildError>)
    requires
        stored is Some && fresh is Some ==> days_in_range(stored->0@) && tags_in_range(
            stored->0@,
        ) && days_in_range(fresh->0@) && tags_in_range(fresh->0@),
    ensures
        match (stored, fresh) {
            (None, None) => r == Err::<(Cache, CacheOutcome), BuildError>(BuildError::NoCommits),
            (None, Some(f)) => r matches Ok((c, o)) && c@ == f@ && o == CacheOutcome::Cold {
                bytes: fetched,
            },
            (Some(e), Some(f)) => r matches Ok((c, o)) && merged_from(c@, e@, f@)
                && o == CacheOutcome::Incremental { bytes: fetched },
            (Some(e), None) => r matches Ok((c, o)) && c@ == (CacheView {
                last_updated: today,
                ..e@
            }) && o == CacheOutcome::Noop,
        },
{
    match (stored, fresh) {
        (None, None) => Err(BuildError::NoCommits),
        (None, Some(f)) => Ok((f, CacheOutcome::Cold { bytes: fetched })),
        (Some(e), Some(f)) => Ok((merge_caches(e, f), CacheOutcome::Incremental { bytes: fetched })),
        (Some(e), None) => {
            let mut e = e;
            e.last_updated = today;
            Ok((e, CacheOutcome::Noop))
        },
    }
}

/// The arguments of the blobless bare clone of `git_url` into `dir`,
/// limited to the history since `since` when given.
pub fn clone_args(git_url: &str, since: Option<JulianDay>, dir: &str) -> (r: Vec<String>)
    ensures
        texts(r@) == seq!["clone"@, "--filter=blob:none"@, "--bare"@] + match since {
            Some(d) => seq!["--shallow-since="@ + ymd_text_of(d)],
            None => Seq::empty(),
        } + seq![git_url@, dir@],
{
    let mut args: Vec<String> = Vec::new();
    args.push("clone".to_string());
    args.push("--filter=blob:none".to_string());
    args.push("--bare".to_string());
    match since {
        Some(d) => {
            let mut a: Vec<char> = chars_of("--shallow-since=");
            let date = format_ymd(d);
            crate::text::extend_str(&mut a, date.as_str());
            args.push(string_of(a.as_slice()));
        },
        None => {},
    }
    args.push(git_url.to_string());
    args.push(dir.to_string());
    assert(texts(args@) =~= seq!["clone"@, "--filter=blob:none"@, "--bare"@] + match since {
        Some(d) => seq!["--shallow-since="@ + ymd_text_of(d)],
        None => Seq::empty(),
    } + seq![git_url@, dir@]);
    args
}

// ---------------------------------------------------------------------------
// What a built cache counts.
// ---------------------------------------------------------------------------

/// The number of commits on `day`.
pub open spec fn day_count(cs: Seq<CommitView>, day: JulianDay) -> nat
    decreases cs.len(),
{
    if cs.len() == 0 {
        0
    } else {
        day_count(cs.drop_last(), day) + if cs.last().day == day {
            1nat
        } else {
            0nat
        }
    }
}

proof fn lemma_commit_days_count(cs: Seq<CommitView>, d: JulianDay)
    ensures
        commit_days(cs).contains_key(d) <==> day_count(cs, d) > 0,
        commit_days(cs).contains_key(d) ==> commit_days(cs)[d].0 == if day_count(cs, d) > 65535 {
            65535
        } else {
            day_count(cs, d)
        },
    decreases cs.len(),
{
    if cs.len() > 0 {
        lemma_commit_days_count(cs.drop_last(), d);
    }
}

/// The days of the commits.
pub open spec fn commit_day_list(cs: Seq<CommitView>) -> Seq<JulianDay> {
    cs.map_values(|c: CommitView| c.day)
}

proof fn lemma_day_count_occurrences(cs: Seq<CommitView>, d: JulianDay)
    ensures
        day_count(cs, d) == occurrences(commit_day_list(cs), d),
    decreases cs.len(),
{
    if cs.len() > 0 {
        lemma_day_count_occurrences(cs.drop_last(), d);
        assert(commit_day_list(cs).drop_last() =~= commit_day_list(cs.drop_last()));
    }
}

proof fn lemma_entries_commits(
    es: Seq<DayEntryView>,
    ds: Seq<JulianDay>,
    m: Map<JulianDay, DayData>,
    first: int,
    authors: Seq<Seq<char>>,
    n: int,
)
    requires
        entries_describe(es, ds, m, first, authors),
        0 <= n <= es.len(),
    ensures
        commits_total(es.take(n)) == sum_over(ds.take(n), |d: JulianDay| m[d].0 as nat),
    decreases n,
{
    if n > 0 {
        lemma_entries_commits(es, ds, m, first, authors, n - 1);
        assert(es.take(n).drop_last() =~= es.take(n - 1));
        assert(ds.take(n).drop_last() =~= ds.take(n - 1));
        assert(es[n - 1].commits == m[ds[n - 1]].0);
    } else {
        assert(es.take(0) =~= Seq::<DayEntryView>::empty());
        assert(ds.take(0) =~= Seq::<JulianDay>::empty());
    }
}

/// A cache built from a history counts every commit once (`commitsAllTime`
/// is the number of commits) when no day has more commits than a day's
/// count holds, and its contributors are the distinct author e-mails.
pub proof fn lemma_built_cache_counts(
    c: CacheView,
    cs: Seq<CommitView>,
    tags: Map<JulianDay, u16>,
    today: JulianDay,
)
    requires
        built_from(c, cs, tags, today),
        forall|d: JulianDay| day_count(cs, d) <= 65535,
    ensures
        commits_total(c.entries) == cs.len(),
        c.authors.no_duplicates(),
        forall|e: Seq<char>| c.authors.contains(e) <==> emails_of(cs).contains(e),
{
    lemma_first_seen(emails_of(cs));
    let m = commit_days(cs);
    let first = oldest_day(cs);
    let ds = choose|ds: Seq<JulianDay>|
        days_in_order(ds, m.dom()) && entries_describe(c.entries, ds, m, first as int, c.authors);
    lemma_entries_commits(c.entries, ds, m, first as int, c.authors, c.entries.len() as int);
    assert(c.entries.take(c.entries.len() as int) =~= c.entries);
    assert(ds.take(ds.len() as int) =~= ds);
    let xs = commit_day_list(cs);
    let f = |d: JulianDay| m[d].0 as nat;
    let g = |d: JulianDay| occurrences(xs, d);
    assert forall|k: int| 0 <= k < ds.len() implies f(ds[k]) == g(ds[k]) by {
        assert(ds.contains(ds[k]));
        lemma_commit_days_count(cs, ds[k]);
        lemma_day_count_occurrences(cs, ds[k]);
    }
    lemma_sum_over_same(ds, f, g);
    assert(ds.no_duplicates()) by {
        assert forall|a: int, b: int| 0 <= a < ds.len() && 0 <= b < ds.len() && a != b implies ds[a]
            != ds[b] by {
            if a < b {
                assert(ds[a] < ds[b]);
            } else {
                assert(ds[b] < ds[a]);
            }
        }
    }
    assert forall|d: JulianDay| ds.contains(d) <==> occurrences(xs, d) > 0 by {
        lemma_commit_days_count(cs, d);
        lemma_day_count_occurrences(cs, d);
    }
    lemma_occurrences_sum(xs, ds);
}

/// The number of non-blank lines.
pub open spec fn nonblank_count(ls: Seq<Seq<char>>) -> nat
    decreases ls.len(),
{
    if ls.len() == 0 {
        0
    } else {
        nonblank_count(ls.drop_last()) + if trim_ws(ls.last()).len() == 0 {
            0nat
        } else {
            1nat
        }
    }
}

/// The days of the non-blank tag lines that read as dates.
pub open spec fn tag_line_days(ls: Seq<Seq<char>>) -> Seq<JulianDay>
    decreases ls.len(),
{
    if ls.len() == 0 {
        Seq::empty()
    } else {
        let p = tag_line_days(ls.drop_last());
        let t = trim_ws(ls.last());
        if t.len() == 0 {
            p
        } else {
            match ymd_day_of(t) {
                Some(d) => p.push(d),
                None => p,
            }
        }
    }
}

proof fn lemma_tag_days_counts(ls: Seq<Seq<char>>, d: JulianDay)
    requires
        tag_days_of(ls) is Ok,
    ensures
        tag_line_days(ls).len() == nonblank_count(ls),
        tag_days_of(ls)->Ok_0.contains_key(d) <==> occurrences(tag_line_days(ls), d) > 0,
        tag_days_of(ls)->Ok_0.contains_key(d) ==> tag_days_of(ls)->Ok_0[d] == occurrences(
            tag_line_days(ls),
            d,
        ),
    decreases ls.len(),
{
    if ls.len() > 0 {
        lemma_tag_days_counts(ls.drop_last(), d);
        let t = trim_ws(ls.last());
        if t.len() > 0 && ymd_day_of(t) is Some {
            assert(tag_line_days(ls).drop_last() =~= tag_line_days(ls.drop_last()));
        }
    }
}

proof fn lemma_tags_total(
    ts: Seq<TagEntry>,
    ds: Seq<JulianDay>,
    m: Map<JulianDay, u16>,
    first: int,
    n: int,
)
    requires
        tags_describe(ts, ds, m, first),
        0 <= n <= ts.len(),
    ensures
        tag_total(ts.take(n)) == sum_over(ds.take(n), |d: JulianDay| m[d] as nat),
    decreases n,
{
    if n > 0 {
        lemma_tags_total(ts, ds, m, first, n - 1);
        assert(ts.take(n).drop_last() =~= ts.take(n - 1));
        assert(ds.take(n).drop_last() =~= ds.take(n - 1));
        assert(ts[n - 1].count == m[ds[n - 1]]);
    } else {
        assert(ts.take(0) =~= Seq::<TagEntry>::empty());
        assert(ds.take(0) =~= Seq::<JulianDay>::empty());
    }
}

/// A cache built from tag dates counts every tag once: its tag total is
/// the number of non-blank tag lines.
pub proof fn lemma_built_cache_counts_tags(
    c: CacheView,
    cs: Seq<CommitView>,
    tag_dates: Seq<char>,
    tags: Map<JulianDay, u16>,
    today: JulianDay,
)
    requires
        tag_days_of(split_lines(tag_dates)) == Ok::<Map<JulianDay, u16>, BuildError>(tags),
        built_from(c, cs, tags, today),
    ensures
        tag_total(c.tags) == nonblank_count(split_lines(tag_dates)),
{
    let ls = split_lines(tag_dates);
    let xs = tag_line_days(ls);
    let ts = choose|ts: Seq<JulianDay>|
        days_in_order(ts, tags.dom()) && tags_describe(c.tags, ts, tags, oldest_day(cs) as int);
    lemma_tags_total(c.tags, ts, tags, oldest_day(cs) as int, c.tags.len() as int);
    assert(c.tags.take(c.tags.len() as int) =~= c.tags);
    assert(ts.take(ts.len() as int) =~= ts);
    let f = |d: JulianDay| tags[d] as nat;
    let g = |d: JulianDay| occurrences(xs, d);
    assert forall|k: int| 0 <= k < ts.len() implies f(ts[k]) == g(ts[k]) by {
        assert(ts.contains(ts[k]));
        lemma_tag_days_counts(ls, ts[k]);
    }
    lemma_sum_over_same(ts, f, g);
    assert(ts.no_duplicates()) by {
        assert forall|a: int, b: int| 0 <= a < ts.len() && 0 <= b < ts.len() && a != b implies ts[a]
            != ts[b] by {
            if a < b {
                assert(ts[a] < ts[b]);
            } else {
                assert(ts[b] < ts[a]);
            }
        }
    }
    assert forall|d: JulianDay| ts.contains(d) <==> occurrences(xs, d) > 0 by {
        lemma_tag_days_counts(ls, d);
    }
    lemma_occurrences_sum(xs, ts);
    lemma_tag_days_counts(ls, 0);
}

} // verus!
