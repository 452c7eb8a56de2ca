//! The per-software `activity` namespace.
use vstd::prelude::*;

use crate::dates::{format_ymd, ymd_text_of};
use crate::forge::{ForgeMetrics, ForgeResult};
use crate::gitcache::derive::GitMetrics;

verus! {

/// A JSON field that is left out, sent as `null`, or sent with a value.
#[derive(Clone, Copy, Debug, PartialEq, Eq)]
pub enum MaybeNull<T> {
    Absent,
    Null,
    Value(T),
}

impl<T> MaybeNull<T> {
    /// The field is left out.
    pub fn is_absent(&self) -> (r: bool)
        ensures
            r == (*self is Absent),
    {
        match self {
            MaybeNull::Absent => true,
            _ => false,
        }
    }
}

/// Everything measured about one software.
#[derive(Clone, Copy, Debug, PartialEq, Eq)]
pub struct SoftwareMetrics {
    pub git: GitMetrics,
    pub forge: ForgeResult,
    pub recent_days: u32,
}

/// The `activity` namespace written for one software.
#[derive(Clone, Debug, PartialEq, Eq)]
pub struct ActivityNamespace {
    pub v: u32,
    pub contributors: u64,
    pub commits_all_time: u64,
    pub commits_recent: u64,
    pub tags: u64,
    pub oldest_commit: String,
    pub recent_days: u32,
    pub stars: MaybeNull<u64>,
    pub forks: MaybeNull<u64>,
    pub issues_open: MaybeNull<u64>,
    pub issues_closed: MaybeNull<u64>,
    pub pull_requests_all_time: MaybeNull<u64>,
    pub pull_requests_recent: MaybeNull<u64>,
    pub disabled: Vec<&'static str>,
}

/// A forge field: left out when the forge is unsupported, `null` when the
/// call failed, otherwise the value (left out when the forge has none).
pub open spec fn forge_value(forge: ForgeResult, value: Option<u64>) -> MaybeNull<u64> {
    match forge {
        ForgeResult::Unsupported => MaybeNull::Absent,
        ForgeResult::Failed => MaybeNull::Null,
        ForgeResult::Measured(_) => match value {
            Some(n) => MaybeNull::Value(n),
            None => MaybeNull::Absent,
        },
    }
}

/// The metrics a forge measured, if it did.
pub open spec fn measured(forge: ForgeResult) -> ForgeMetrics {
    match forge {
        ForgeResult::Measured(m) => m,
        _ => arbitrary(),
    }
}

fn forge_field(result: &ForgeResult, f: impl Fn(&ForgeMetrics) -> u64) -> (r: MaybeNull<u64>)
    requires
        forall|m: &ForgeMetrics| f.requires((m,)),
    ensures
        match *result {
            ForgeResult::Unsupported => r is Absent,
            ForgeResult::Failed => r is Null,
            ForgeResult::Measured(m) => r matches MaybeNull::Value(v) && f.ensures((&m,), v),
        },
{
    match result {
        ForgeResult::Unsupported => MaybeNull::Absent,
        ForgeResult::Failed => MaybeNull::Null,
        ForgeResult::Measured(m) => MaybeNull::Value(f(m)),
    }
}

fn forge_opt_field(result: &ForgeResult, f: impl Fn(&ForgeMetrics) -> Option<u64>) -> (r: MaybeNull<
    u64,
>)
    requires
        forall|m: &ForgeMetrics| f.requires((m,)),
    ensures
        match *result {
            ForgeResult::Unsupported => r is Absent,
            ForgeResult::Failed => r is Null,
            ForgeResult::Measured(m) => exists|o: Option<u64>|
                f.ensures((&m,), o) && r == match o {
                    Some(n) => MaybeNull::Value(n),
                    None => MaybeNull::<u64>::Absent,
                },
        },
{
    match result {
        ForgeResult::Unsupported => MaybeNull::Absent,
        ForgeResult::Failed => MaybeNull::Null,
        ForgeResult::Measured(m) => match f(m) {
            Some(n) => MaybeNull::Value(n),
            None => MaybeNull::Absent,
        },
    }
}

impl SoftwareMetrics {
    /// The `activity` namespace: the git metrics, the forge fields as
    /// [`forge_value`] says, and `disabled: ["issues"]` when the forge
    /// reports the issue tracker off.
    pub fn to_namespace(&self) -> (r: ActivityNamespace)
        ensures
            r.v == 1,
            r.contributors == self.git.contributors,
            r.commits_all_time == self.git.commits_all_time,
            r.commits_recent == self.git.commits_recent,
            r.tags == self.git.tags,
            r.oldest_commit@ == ymd_text_of(self.git.oldest_commit),
            r.recent_days == self.recent_days,
            r.stars == forge_value(self.forge, Some(measured(self.forge).stars)),
            r.forks == forge_value(self.forge, Some(measured(self.forge).forks)),
            r.issues_open == forge_value(self.forge, measured(self.forge).issues_open),
            r.issues_closed == forge_value(self.forge, measured(self.forge).issues_closed),
            r.pull_requests_all_time == forge_value(
                self.forge,
                Some(measured(self.forge).pull_requests_all_time),
            ),
            r.pull_requests_recent == forge_value(
                self.forge,
                measured(self.forge).pull_requests_recent,
            ),
            r.disabled@.len() == (if self.forge matches ForgeResult::Measured(m)
                && m.issues_disabled {
                1int
            } else {
                0int
            }),
            r.disabled@.len() == 1 ==> r.disabled@[0]@ == "issues"@,
    {
        let disabled: Vec<&'static str> = match &self.forge {
            ForgeResult::Measured(m) => {
                if m.issues_disabled {
                    let mut v: Vec<&'static str> = Vec::new();
                    v.push("issues");
                    v
                } else {
                    Vec::new()
                }
            },
            _ => Vec::new(),
        };
        let stars = forge_field(
            &self.forge,
            (|f: &ForgeMetrics| -> (r: u64) ensures r == f.stars, { f.stars }),
        );
        let forks = forge_field(
            &self.forge,
            (|f: &ForgeMetrics| -> (r: u64) ensures r == f.forks, { f.forks }),
        );
        let issues_open = forge_opt_field(
            &self.forge,
            (|f: &ForgeMetrics| -> (r: Option<u64>) ensures r == f.issues_open, { f.issues_open }),
        );
        let issues_closed = forge_opt_field(
            &self.forge,
            (|f: &ForgeMetrics| -> (r: Option<u64>) ensures r == f.issues_closed, { f.issues_closed }),
        );
        let pull_requests_all_time = forge_field(
            &self.forge,
            (|f: &ForgeMetrics| -> (r: u64) ensures r == f.pull_requests_all_time, { f.pull_requests_all_time }),
        );
        let pull_requests_recent = forge_opt_field(
            &self.forge,
            (|f: &ForgeMetrics| -> (r: Option<u64>) ensures r == f.pull_requests_recent, { f.pull_requests_recent }),
        );
        ActivityNamespace {
            v: 1,
            contributors: self.git.contributors,
            commits_all_time: self.git.commits_all_time,
            commits_recent: self.git.commits_recent,
            tags: self.git.tags,
            oldest_commit: format_ymd(self.git.oldest_commit),
            recent_days: self.recent_days,
            stars,
            forks,
            issues_open,
            issues_closed,
            pull_requests_all_time,
            pull_requests_recent,
            disabled,
        }
    }
}

} // verus!
