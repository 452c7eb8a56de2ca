//! The software-catalog-api: its records and the requests the collector makes.
use vstd::prelude::*;

use crate::forge::ForgeResult;
use crate::json::{get_str, Json};
use crate::text::{chars_of, extend_str, str_eq, string_of};

verus! {

/// A software entry of the catalog.
#[derive(Clone, Debug, PartialEq, Eq)]
pub struct Software {
    pub id: String,
    pub url: String,
    pub catalog_id: Option<String>,
    pub publiccode_yml: Option<String>,
}

/// The first page of the software list, of one catalog or of all.
pub fn software_list_url(base: &str, catalog: Option<&str>) -> (r: String)
    ensures
        r@ == match catalog {
            Some(id) => base@ + "/catalogs/"@ + id@ + "/software?page[size]=100"@,
            None => base@ + "/software?page[size]=100"@,
        },
{
    let mut v: Vec<char> = Vec::new();
    extend_str(&mut v, base);
    match catalog {
        Some(id) => {
            extend_str(&mut v, "/catalogs/");
            extend_str(&mut v, id);
            extend_str(&mut v, "/software?page[size]=100");
        },
        None => extend_str(&mut v, "/software?page[size]=100"),
    }
    string_of(v.as_slice())
}

/// The list of all catalogs.
pub fn catalogs_url(base: &str) -> (r: String)
    ensures
        r@ == base@ + "/catalogs?all=true"@,
{
    let mut v: Vec<char> = Vec::new();
    extend_str(&mut v, base);
    extend_str(&mut v, "/catalogs?all=true");
    string_of(v.as_slice())
}

/// The analysis of one software.
pub fn software_analysis_url(base: &str, id: &str) -> (r: String)
    ensures
        r@ == base@ + "/software/"@ + id@ + "/analysis"@,
{
    let mut v: Vec<char> = Vec::new();
    extend_str(&mut v, base);
    extend_str(&mut v, "/software/");
    extend_str(&mut v, id);
    extend_str(&mut v, "/analysis");
    string_of(v.as_slice())
}

/// The analysis of one catalog.
pub fn catalog_analysis_url(base: &str, id: &str) -> (r: String)
    ensures
        r@ == base@ + "/catalogs/"@ + id@ + "/analysis"@,
{
    let mut v: Vec<char> = Vec::new();
    extend_str(&mut v, base);
    extend_str(&mut v, "/catalogs/");
    extend_str(&mut v, id);
    extend_str(&mut v, "/analysis");
    string_of(v.as_slice())
}

/// The address `next` resolves to against the page at `base`, as the `url`
/// crate resolves a reference, written back as text.
pub uninterp spec fn url_join_of(base: Seq<char>, next: Seq<char>) -> Option<Seq<char>>;

/// `url::Url::parse(base)`, then `join(next)` and `to_string`; `None`
/// where either fails.
#[verifier::external_body]
fn join_url(base: &str, next: &str) -> (r: Option<String>)
    ensures
        match r {
            Some(u) => url_join_of(base@, next@) == Some(u@),
            None => url_join_of(base@, next@) is None,
        },
{
    match url::Url::parse(base).and_then(|b| b.join(next)) {
        Ok(u) => Some(u.to_string()),
        Err(_) => None,
    }
}

/// Why the software list could not be walked.
#[derive(Clone, Copy, Debug, PartialEq, Eq)]
pub enum CatalogError {
    /// A page links to a next page that cannot be resolved.
    BadNextLink,
}

/// The `links.next` of a page, when it is a nonempty string.
pub open spec fn next_link(page: Json) -> Option<Seq<char>> {
    match page.at("links"@).at("next"@).str_of() {
        Some(n) => if n.len() > 0 {
            Some(n)
        } else {
            None
        },
        None => None,
    }
}

/// Where the software list goes on after the page read from `current`:
/// its next link resolved against `current`, `None` on the last page.
pub fn next_page_url(current: &str, page: &Json) -> (r: Result<Option<String>, CatalogError>)
    ensures
        match next_link(*page) {
            None => r == Ok::<Option<String>, CatalogError>(None),
            Some(n) => match url_join_of(current@, n) {
                Some(u) => r matches Ok(Some(s)) && s@ == u,
                None => r == Err::<Option<String>, CatalogError>(CatalogError::BadNextLink),
            },
        },
{
    let next = match page.get("links") {
        Some(links) => get_str(links, "next"),
        None => None,
    };
    match next {
        Some(n) => {
            let c = chars_of(n.as_str());
            if c.len() == 0 {
                return Ok(None);
            }
            match join_url(current, n.as_str()) {
                Some(u) => Ok(Some(u)),
                None => Err(CatalogError::BadNextLink),
            }
        },
        None => Ok(None),
    }
}

/// The alternative id that marks the root catalog.
pub open spec fn root_marker() -> Seq<char> {
    seq!['\u{2205}']
}

/// The entries of `data`, when it is an array.
pub open spec fn data_items(page: Json) -> Seq<Json> {
    match page.at("data"@) {
        Json::Array(items) => items@,
        _ => Seq::empty(),
    }
}

/// The id of the first catalog marked as the root, `""` when its id is
/// not a string; `None` when no catalog is marked.
pub open spec fn root_id_in(items: Seq<Json>) -> Option<Seq<char>>
    decreases items.len(),
{
    if items.len() == 0 {
        None
    } else if items[0].at("alternativeId"@).str_of() == Some(root_marker()) {
        Some(
            match items[0].at("id"@).str_of() {
                Some(id) => id,
                None => Seq::empty(),
            },
        )
    } else {
        root_id_in(items.drop_first())
    }
}

/// The root catalog of a catalog list: the one whose `alternativeId` is
/// `∅`.
pub fn root_catalog_id(page: &Json) -> (r: Option<String>)
    ensures
        match root_id_in(data_items(*page)) {
            Some(id) => r matches Some(s) && s@ == id,
            None => r is None,
        },
{
    let items = match page.get("data") {
        Some(Json::Array(items)) => items,
        _ => {
            return None;
        },
    };
    let marker: String = string_of(&['\u{2205}']);
    let mut i: usize = 0;
    assert(items@.skip(0) =~= items@);
    while i < items.len()
        invariant
            i <= items@.len(),
            data_items(*page) == items@,
            marker@ == root_marker(),
            root_id_in(items@) == root_id_in(items@.skip(i as int)),
        decreases items.len() - i,
    {
        assert(items@.skip(i as int).drop_first() =~= items@.skip(i + 1));
        assert(items@.skip(i as int)[0] == items@[i as int]);
        let alt = get_str(&items[i], "alternativeId");
        let is_root = match alt {
            Some(a) => str_eq(a.as_str(), marker.as_str()),
            None => false,
        };
        if is_root {
            return match get_str(&items[i], "id") {
                Some(id) => Some(id),
                None => Some(String::new()),
            };
        }
        i += 1;
    }
    assert(items@.skip(i as int) =~= Seq::<Json>::empty());
    None
}

/// The metrics in the `activity` namespace of a stored analysis that come
/// from a forge.
pub open spec fn forge_field_name(k: nat) -> Seq<char> {
    if k == 0 {
        "stars"@
    } else if k == 1 {
        "forks"@
    } else if k == 2 {
        "issuesOpen"@
    } else if k == 3 {
        "issuesClosed"@
    } else if k == 4 {
        "pullRequestsAllTime"@
    } else {
        "pullRequestsRecent"@
    }
}

/// The stored analysis holds a measured forge value.
pub open spec fn holds_forge_value(stored: Json) -> bool {
    exists|k: nat| k < 6 && (#[trigger] stored.at("activity"@).at(forge_field_name(k))).u64_of() is Some
}

fn forge_field_label(k: usize) -> (r: &'static str)
    requires
        k < 6,
    ensures
        r@ == forge_field_name(k as nat),
{
    if k == 0 {
        "stars"
    } else if k == 1 {
        "forks"
    } else if k == 2 {
        "issuesOpen"
    } else if k == 3 {
        "issuesClosed"
    } else if k == 4 {
        "pullRequestsAllTime"
    } else {
        "pullRequestsRecent"
    }
}

/// Whether the `activity` namespace of a software is sent. The API
/// replaces the namespace on every PATCH, so when the forge call failed
/// and the stored analysis already holds a measured forge value the
/// PATCH is skipped: the stored numbers stay. `stored` is the stored
/// analysis where it could be read.
#[verifier::loop_isolation(false)]
pub fn should_send_activity(forge: &ForgeResult, stored: Option<&Json>) -> (r: bool)
    ensures
        r == !(forge is Failed && match stored {
            Some(s) => holds_forge_value(*s),
            None => false,
        }),
{
    match forge {
        ForgeResult::Failed => {},
        _ => {
            return true;
        },
    }
    let s = match stored {
        Some(s) => s,
        None => {
            return true;
        },
    };
    let activity = match s.get("activity") {
        Some(a) => a,
        None => {
            proof {
                assert forall|k: nat| k < 6 implies (#[trigger] s.at("activity"@).at(
                    forge_field_name(k),
                )).u64_of() is None by {}
            }
            return true;
        },
    };
    let mut k: usize = 0;
    while k < 6
        invariant
            k <= 6,
            *activity == s.at("activity"@),
            forall|j: nat| j < k ==> (#[trigger] s.at("activity"@).at(forge_field_name(j))).u64_of() is None,
        decreases 6 - k,
    {
        let label = forge_field_label(k);
        let v = match activity.get(label) {
            Some(x) => x.as_u64(),
            None => None,
        };
        if v.is_some() {
            assert(s.at("activity"@).at(forge_field_name(k as nat)).u64_of() is Some);
            return false;
        }
        k += 1;
    }
    true
}

} // verus!
