//! The collector's settings.
use vstd::prelude::*;

use crate::text::{
    chars_of, find_char, lemma_find_char_at, lemma_find_char_none, lines, split_lines, string_of,
    sub_chars, trim, trim_ws,
};

verus! {

/// Settings, read by the program from flags and the environment.
#[derive(Clone, Debug, PartialEq, Eq)]
pub struct Config {
    pub api_base_url: String,
    pub api_token: String,
    pub github_token: Option<String>,
    pub gitlab_token: Option<String>,
    pub recent_days: u32,
    pub concurrency: usize,
    pub dry_run: bool,
    pub gitlab_hosts: Vec<String>,
    /// Process only the software of this catalog.
    pub catalog: Option<String>,
}

/// A value without one pair of surrounding double or single quotes.
pub open spec fn unquote(v: Seq<char>) -> Seq<char> {
    if v.len() >= 2 && ((v[0] == '"' && v.last() == '"') || (v[0] == '\'' && v.last() == '\'')) {
        v.subrange(1, v.len() - 1)
    } else {
        v
    }
}

/// The setting a line of a `.env` file holds: `KEY=VALUE`, both trimmed,
/// the value without surrounding quotes; blank lines, `#` comments,
/// lines without `=` and lines with an empty key hold none.
pub open spec fn env_entry(line: Seq<char>) -> Option<(Seq<char>, Seq<char>)> {
    let t = trim_ws(line);
    let k = find_char(t, '=');
    if t.len() == 0 || t[0] == '#' || k < 0 {
        None
    } else {
        let key = trim_ws(t.take(k));
        if key.len() == 0 {
            None
        } else {
            Some((key, unquote(trim_ws(t.skip(k + 1)))))
        }
    }
}

/// The settings of the lines, in order.
pub open spec fn env_entries(ls: Seq<Seq<char>>) -> Seq<(Seq<char>, Seq<char>)>
    decreases ls.len(),
{
    if ls.len() == 0 {
        Seq::empty()
    } else {
        match env_entry(ls.last()) {
            Some(e) => env_entries(ls.drop_last()).push(e),
            None => env_entries(ls.drop_last()),
        }
    }
}

fn entry_of(line: &[char]) -> (r: Option<(String, String)>)
    ensures
        match env_entry(line@) {
            Some((k, v)) => r matches Some((a, b)) && a@ == k && b@ == v,
            None => r is None,
        },
{
    let t = trim(line);
    if t.len() == 0 || t[0] == '#' {
        return None;
    }
    let mut k: usize = 0;
    while k < t.len() && t[k] != '='
        invariant
            k <= t@.len(),
            forall|i: int| 0 <= i < k ==> t@[i] != '=',
        decreases t.len() - k,
    {
        k += 1;
    }
    if k == t.len() {
        proof {
            lemma_find_char_none(t@, '=');
        }
        return None;
    }
    proof {
        lemma_find_char_at(t@, '=', k as int);
    }
    let before = sub_chars(t.as_slice(), 0, k);
    assert(before@ =~= t@.take(k as int));
    let key = trim(before.as_slice());
    if key.len() == 0 {
        return None;
    }
    let rest = sub_chars(t.as_slice(), k + 1, t.len());
    assert(rest@ =~= t@.skip(k + 1));
    let raw = trim(rest.as_slice());
    let n = raw.len();
    let value = if n >= 2 && ((raw[0] == '"' && raw[n - 1] == '"') || (raw[0] == '\'' && raw[n - 1]
        == '\'')) {
        sub_chars(raw.as_slice(), 1, n - 1)
    } else {
        raw
    };
    Some((string_of(key.as_slice()), string_of(value.as_slice())))
}

/// The settings of a `.env` file, in order.
pub fn parse_dotenv(text: &str) -> (r: Vec<(String, String)>)
    ensures
        r@.len() == env_entries(split_lines(text@)).len(),
        forall|i: int|
            0 <= i < r@.len() ==> (#[trigger] r@[i]).0@ == env_entries(split_lines(text@))[i].0
                && r@[i].1@ == env_entries(split_lines(text@))[i].1,
{
    let c = chars_of(text);
    let ls = lines(c.as_slice());
    let ghost lv = ls@.map_values(|p: Vec<char>| p@);
    let mut out: Vec<(String, String)> = Vec::new();
    let mut i: usize = 0;
    assert(lv.take(0) =~= Seq::<Seq<char>>::empty());
    while i < ls.len()
        invariant
            i <= ls@.len(),
            lv == ls@.map_values(|p: Vec<char>| p@),
            lv == split_lines(text@),
            out@.len() == env_entries(lv.take(i as int)).len(),
            forall|j: int|
                0 <= j < out@.len() ==> (#[trigger] out@[j]).0@ == env_entries(lv.take(i as int))[j].0
                    && out@[j].1@ == env_entries(lv.take(i as int))[j].1,
        decreases ls.len() - i,
    {
        assert(lv.take(i + 1).drop_last() =~= lv.take(i as int));
        assert(lv.take(i + 1).last() == ls@[i as int]@);
        match entry_of(ls[i].as_slice()) {
            Some(e) => out.push(e),
            None => {},
        }
        i += 1;
    }
    assert(lv.take(i as int) =~= lv);
    out
}

} // verus!
