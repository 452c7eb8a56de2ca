//! The compact per-repository git summary that the collector keeps on disk.
use vstd::prelude::*;

pub mod refresh;
pub mod codec;
pub mod derive;
pub mod paths;

verus! {

/// A calendar day, as its Julian day number (day 0 is -4713-11-24 in the
/// proleptic Gregorian calendar, 2_451_545 is 2000-01-01).
pub type JulianDay = i32;

/// How a repository's cache was obtained on this run.
#[derive(Clone, Copy, Debug, PartialEq, Eq)]
pub enum CacheOutcome {
    Cold { bytes: u64 },
    Incremental { bytes: u64 },
    Noop,
    Hit,
}

/// Per-day commit activity. `delta` is the distance in days from the
/// previous entry (or from `Cache::first_entry` for the first one),
/// `authors` are indices into `Cache::authors`.
#[derive(Clone, Debug, PartialEq, Eq)]
pub struct DayEntry {
    pub delta: u16,
    pub commits: u16,
    pub merges: u16,
    pub authors: Vec<u16>,
}

/// Tags created on one day, `delta` days after the previous tag day.
#[derive(Clone, Copy, Debug, PartialEq, Eq)]
pub struct TagEntry {
    pub delta: u16,
    pub count: u16,
}

/// The summary of a repository's history.
#[derive(Clone, Debug, PartialEq, Eq)]
pub struct Cache {
    pub last_updated: JulianDay,
    pub oldest_commit: JulianDay,
    pub first_entry: JulianDay,
    pub authors: Vec<String>,
    pub entries: Vec<DayEntry>,
    pub tags: Vec<TagEntry>,
}

/// Mathematical model of a [`DayEntry`].
pub struct DayEntryView {
    pub delta: u16,
    pub commits: u16,
    pub merges: u16,
    pub authors: Seq<u16>,
}

/// Mathematical model of a [`Cache`].
pub struct CacheView {
    pub last_updated: JulianDay,
    pub oldest_commit: JulianDay,
    pub first_entry: JulianDay,
    pub authors: Seq<Seq<char>>,
    pub entries: Seq<DayEntryView>,
    pub tags: Seq<TagEntry>,
}

impl View for DayEntry {
    type V = DayEntryView;

    open spec fn view(&self) -> DayEntryView {
        DayEntryView {
            delta: self.delta,
            commits: self.commits,
            merges: self.merges,
            authors: self.authors@,
        }
    }
}

impl View for Cache {
    type V = CacheView;

    open spec fn view(&self) -> CacheView {
        CacheView {
            last_updated: self.last_updated,
            oldest_commit: self.oldest_commit,
            first_entry: self.first_entry,
            authors: self.authors@.map_values(|a: String| a@),
            entries: self.entries@.map_values(|e: DayEntry| e@),
            tags: self.tags@,
        }
    }
}

} // verus!
