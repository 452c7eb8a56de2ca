//! The decisions of a collection run: where each repository's metrics come
//! from, and the run's summary.
use vstd::prelude::*;

use vstd::arithmetic::power2::{lemma_pow2_pos, lemma_pow2_unfold, pow2};

use crate::catalog::Software;

use crate::gitcache::CacheOutcome;
use crate::text::{
    chars_of, contains, contains_seq, decimal, digit_char, extend_str, has_prefix, lines, push_decimal, split_lines, starts_with, str_eq, string_of, sub_chars, trim, trim_end_matches, trim_matches, trim_set, trim_suffix_all, trim_ws,
};

verus! {

/// How a run went.
pub struct Summary {
    pub processed: usize,
    pub failed: usize,
    pub cache: CacheStats,
}

/// How each repository's cache was obtained, and the bytes fetched.
#[derive(Debug, Default, PartialEq, Eq)]
pub struct CacheStats {
    pub hit: usize,
    pub incremental: usize,
    pub cold: usize,
    pub noop: usize,
    pub bytes: u64,
}

/// The counters leave room for one more outcome.
pub open spec fn can_record(s: CacheStats, outcome: CacheOutcome) -> bool {
    match outcome {
        CacheOutcome::Cold { bytes } => s.cold < usize::MAX && s.bytes + bytes <= u64::MAX,
        CacheOutcome::Incremental { bytes } => s.incremental < usize::MAX && s.bytes + bytes
            <= u64::MAX,
        CacheOutcome::Noop => s.noop < usize::MAX,
        CacheOutcome::Hit => s.hit < usize::MAX,
    }
}

/// The counters after one more outcome.
pub open spec fn recorded(s: CacheStats, outcome: CacheOutcome) -> CacheStats {
    match outcome {
        CacheOutcome::Cold { bytes } => CacheStats {
            cold: (s.cold + 1) as usize,
            bytes: (s.bytes + bytes) as u64,
            ..s
        },
        CacheOutcome::Incremental { bytes } => CacheStats {
            incremental: (s.incremental + 1) as usize,
            bytes: (s.bytes + bytes) as u64,
            ..s
        },
        CacheOutcome::Noop => CacheStats { noop: (s.noop + 1) as usize, ..s },
        CacheOutcome::Hit => CacheStats { hit: (s.hit + 1) as usize, ..s },
    }
}

/// `b` rounded to a multiple of `unit`, ties to the even multiple.
pub open spec fn round_half_even(b: nat, unit: nat) -> nat {
    let lo = b % unit;
    let base = (b - lo) as nat;
    if 2 * lo > unit || (2 * lo == unit && (base / unit) % 2 == 1) {
        base + unit
    } else {
        base
    }
}

/// The spacing of the `f64` values around `b`: 1 below 2^53, doubling with each bit above.
pub open spec fn f64_unit(b: nat) -> nat
    decreases b,
{
    if b < 0x20_0000_0000_0000 {
        1
    } else {
        2 * f64_unit(b / 2)
    }
}

/// `b as f64`: the nearest `f64`, ties to even.
pub open spec fn f64_of(b: nat) -> nat {
    round_half_even(b, f64_unit(b))
}

/// `x / unit` to one decimal, rounded half to even, counted in tenths.
pub open spec fn tenths(x: nat, unit: nat) -> nat {
    let q = (10 * x) / unit;
    let r = (10 * x) % unit;
    if 2 * r > unit || (2 * r == unit && q % 2 == 1) {
        q + 1
    } else {
        q
    }
}

/// `bytes` scaled to B, KB, MB or GB, as `format!("{b} B")` and
/// `format!("{:.1} KB", b as f64 / 1024.0)` (and so on) write it.
pub open spec fn human_bytes_text(bytes: u64) -> Seq<char> {
    if bytes < 1024 {
        decimal(bytes as nat) + " B"@
    } else {
        let (unit, suffix) = if bytes < 1024 * 1024 {
            (1024nat, " KB"@)
        } else if bytes < 1024 * 1024 * 1024 {
            (1024nat * 1024, " MB"@)
        } else {
            (1024nat * 1024 * 1024, " GB"@)
        };
        let t = tenths(f64_of(bytes as nat), unit);
        decimal(t / 10) + seq!['.', digit_char(t % 10)] + suffix
    }
}

proof fn lemma_unit_step(b: nat, x: nat, unit: nat)
    requires
        unit > 0,
        x == b / unit,
        f64_unit(b) == unit * f64_unit(x),
        x >= 0x20_0000_0000_0000,
    ensures
        x / 2 == b / (unit * 2),
        f64_unit(b) == (unit * 2) * f64_unit(x / 2),
{
    vstd::arithmetic::div_mod::lemma_div_denominator(b as int, unit as int, 2);
    assert(f64_unit(x) == 2 * f64_unit(x / 2));
    vstd::arithmetic::mul::lemma_mul_is_associative(unit as int, 2, f64_unit(x / 2) as int);
}

proof fn lemma_unit_le(b: nat, e: nat)
    requires
        b < 0x20_0000_0000_0000 * pow2(e),
    ensures
        1 <= f64_unit(b) <= pow2(e),
    decreases e,
{
    lemma_pow2_pos(e);
    if b >= 0x20_0000_0000_0000 {
        if e == 0 {
            vstd::arithmetic::power2::lemma2_to64();
            assert(false);
        } else {
            lemma_pow2_unfold(e);
            assert(pow2(e) == 2 * pow2((e - 1) as nat));
            assert(b / 2 < 0x20_0000_0000_0000 * pow2((e - 1) as nat));
            lemma_unit_le(b / 2, (e - 1) as nat);
        }
    }
}

proof fn lemma_unit_bound(b: nat)
    requires
        b < 0x1_0000_0000_0000_0000,
    ensures
        1 <= f64_unit(b) <= 0x800,
{
    vstd::arithmetic::power2::lemma2_to64();
    lemma_unit_le(b, 11);
}

impl CacheStats {
    /// Counts one more outcome, adding its fetched bytes.
    pub fn record(&mut self, outcome: &CacheOutcome)
        requires
            can_record(*old(self), *outcome),
        ensures
            *final(self) == recorded(*old(self), *outcome),
    {
        match outcome {
            CacheOutcome::Cold { bytes } => {
                self.cold += 1;
                self.bytes += *bytes;
            },
            CacheOutcome::Incremental { bytes } => {
                self.incremental += 1;
                self.bytes += *bytes;
            },
            CacheOutcome::Noop => self.noop += 1,
            CacheOutcome::Hit => self.hit += 1,
        }
    }

    pub open spec fn describe_spec(&self) -> Seq<char> {
        "cache: "@ + decimal(self.hit as nat) + " hit, "@ + decimal(self.incremental as nat)
            + " incremental, "@ + decimal(self.cold as nat) + " cold, "@ + decimal(
            self.noop as nat,
        ) + " noop, "@ + human_bytes_text(self.bytes) + " fetched"@
    }

    /// The one-line summary printed at the end of a run.
    pub fn describe(&self) -> (r: String)
        ensures
            r@ == self.describe_spec(),
    {
        let mut v: Vec<char> = Vec::new();
        extend_str(&mut v, "cache: ");
        push_decimal(&mut v, self.hit as u64);
        extend_str(&mut v, " hit, ");
        push_decimal(&mut v, self.incremental as u64);
        extend_str(&mut v, " incremental, ");
        push_decimal(&mut v, self.cold as u64);
        extend_str(&mut v, " cold, ");
        push_decimal(&mut v, self.noop as u64);
        extend_str(&mut v, " noop, ");
        let hb = human_bytes(self.bytes);
        extend_str(&mut v, hb.as_str());
        extend_str(&mut v, " fetched");
        assert(v@ =~= self.describe_spec());
        string_of(v.as_slice())
    }
}

/// `bytes` as `B`, `KB`, `MB` or `GB`, with one decimal above bytes.
pub fn human_bytes(bytes: u64) -> (r: String)
    ensures
        r@ == human_bytes_text(bytes),
{
    let mut v: Vec<char> = Vec::new();
    if bytes < 1024 {
        push_decimal(&mut v, bytes);
        extend_str(&mut v, " B");
        assert(v@ =~= human_bytes_text(bytes));
        return string_of(v.as_slice());
    }
    // `bytes as f64`: round to the spacing of f64 values around `bytes`.
    let mut x: u64 = bytes;
    let mut unit: u64 = 1;
    proof {
        lemma_unit_bound(bytes as nat);
    }
    while x >= 0x20_0000_0000_0000
        invariant
            unit > 0,
            x == bytes / unit,
            f64_unit(bytes as nat) == unit * f64_unit(x as nat),
            f64_unit(bytes as nat) <= 0x800,
        decreases x,
    {
        proof {
            lemma_unit_step(bytes as nat, x as nat, unit as nat);
            assert(f64_unit((x / 2) as nat) >= 1) by {
                lemma_unit_bound((x / 2) as nat);
            }
            assert(unit * 2 <= 0x800) by (nonlinear_arith)
                requires
                    f64_unit(bytes as nat) == (unit * 2) * f64_unit((x / 2) as nat),
                    f64_unit((x / 2) as nat) >= 1,
                    f64_unit(bytes as nat) <= 0x800,
            ;
        }
        x = x / 2;
        unit = unit * 2;
    }
    assert(f64_unit(x as nat) == 1);
    assert(unit == f64_unit(bytes as nat));
    let b: u128 = bytes as u128;
    let u: u128 = unit as u128;
    let lo: u128 = b % u;
    let base: u128 = b - lo;
    let f: u128 = if 2 * lo > u || (2 * lo == u && (base / u) % 2 == 1) {
        base + u
    } else {
        base
    };
    assert(f == f64_of(bytes as nat));
    let (scale, suffix): (u128, &str) = if bytes < 1024 * 1024 {
        (1024, " KB")
    } else if bytes < 1024 * 1024 * 1024 {
        (1024 * 1024, " MB")
    } else {
        (1024 * 1024 * 1024, " GB")
    };
    let q: u128 = (10 * f) / scale;
    let r: u128 = (10 * f) % scale;
    let t: u128 = if 2 * r > scale || (2 * r == scale && q % 2 == 1) {
        q + 1
    } else {
        q
    };
    assert(t == tenths(f as nat, scale as nat));
    assert(t <= 0x1_0000_0000_0000_0000_0);
    push_decimal(&mut v, (t / 10) as u64);
    v.push('.');
    v.push(crate::text::char_from_ascii((48 + t % 10) as u8));
    extend_str(&mut v, suffix);
    assert(v@ =~= human_bytes_text(bytes));
    string_of(v.as_slice())
}

// ---------------------------------------------------------------------------
// Repository addresses.
// ---------------------------------------------------------------------------

/// The host (if the URL has one) and the path of a URL, as the `url` crate
/// parses it.
pub uninterp spec fn url_parts_of(raw: Seq<char>) -> Option<(Option<Seq<char>>, Seq<char>)>;

/// `url::Url::parse`, then `host_str` and `path` of the parsed URL.
#[verifier::external_body]
fn url_parts(raw: &str) -> (r: Option<(Option<String>, String)>)
    ensures
        match r {
            Some((h, p)) => url_parts_of(raw@) == Some((
                match h {
                    Some(s) => Some(s@),
                    None => None::<Seq<char>>,
                },
                p@,
            )),
            None => url_parts_of(raw@) is None,
        },
{
    match url::Url::parse(raw) {
        Ok(u) => Some((u.host_str().map(str::to_string), u.path().to_string())),
        Err(_) => None,
    }
}

/// The host and `owner/name` of a repository URL: the path without its
/// surrounding slashes and without trailing `.git`.
pub open spec fn repo_of(raw: Seq<char>) -> Option<(Seq<char>, Seq<char>)> {
    match url_parts_of(raw) {
        Some((Some(host), path)) => Some((host, trim_suffix_all(trim_set(path, seq!['/']), ".git"@))),
        _ => None,
    }
}

/// Host and full name of a repository URL.
pub fn parse_repo(raw: &str) -> (r: Option<(String, String)>)
    ensures
        match r {
            Some((h, n)) => repo_of(raw@) == Some((h@, n@)),
            None => repo_of(raw@) is None,
        },
{
    match url_parts(raw) {
        Some((Some(host), path)) => {
            let p = chars_of(path.as_str());
            let slash = chars_of("/");
            assert(slash@ =~= seq!['/']) by {
                reveal_strlit("/");
            }
            let trimmed = trim_matches(p.as_slice(), slash.as_slice());
            let git = chars_of(".git");
            assert(git@.len() > 0) by {
                reveal_strlit(".git");
            }
            let name = trim_end_matches(trimmed.as_slice(), git.as_slice());
            Some((host, string_of(name.as_slice())))
        },
        _ => None,
    }
}

/// opencode.de carries synced mirrors of projects developed elsewhere.
/// The clone is identical, so git history is right either way, but the
/// mirror's own star and fork counts sit near zero while the upstream
/// repository has thousands. Only the forge side follows the home
/// publiccode.yml declares.
pub const MIRROR_HOST: &'static str = "gitlab.opencode.de";

/// The first line of `yml` that begins with `url:`, if any.
pub open spec fn first_url_line(ls: Seq<Seq<char>>) -> Option<Seq<char>>
    decreases ls.len(),
{
    if ls.len() == 0 {
        None
    } else if starts_with(ls[0], "url:"@) {
        Some(ls[0])
    } else {
        first_url_line(ls.drop_first())
    }
}

/// The repository url at the root of publiccode.yml: the first line that
/// starts with `url:`, its value trimmed of white space and quotes, when
/// that is not empty.
pub open spec fn declared_url(yml: Seq<char>) -> Option<Seq<char>> {
    match first_url_line(split_lines(yml)) {
        Some(line) => {
            let v = trim_set(trim_ws(line.skip(4)), seq!['"', '\'']);
            if v.len() > 0 {
                Some(v)
            } else {
                None
            }
        },
        None => None,
    }
}

/// The repository url at the root of publiccode.yml. Only column zero
/// counts: the nested url keys under legal, maintenance and the rest
/// point at licences and contacts, not at the code.
pub fn declared_repo_url(yml: &str) -> (r: Option<String>)
    ensures
        match r {
            Some(s) => declared_url(yml@) == Some(s@),
            None => declared_url(yml@) is None,
        },
{
    let c = chars_of(yml);
    let ls = lines(c.as_slice());
    let ghost lv = ls@.map_values(|p: Vec<char>| p@);
    let prefix = chars_of("url:");
    assert(prefix@.len() == 4) by {
        reveal_strlit("url:");
    }
    let mut i: usize = 0;
    assert(lv.skip(0) =~= lv);
    while i < ls.len()
        invariant
            lv == ls@.map_values(|p: Vec<char>| p@),
            lv == split_lines(c@),
            c@ == yml@,
            prefix@ == "url:"@,
            prefix@.len() == 4,
            i <= ls@.len(),
            first_url_line(lv) == first_url_line(lv.skip(i as int)),
        decreases ls.len() - i,
    {
        assert(lv.skip(i as int).drop_first() =~= lv.skip(i + 1));
        assert(lv.skip(i as int)[0] == ls@[i as int]@);
        if has_prefix(ls[i].as_slice(), prefix.as_slice()) {
            let line = &ls[i];
            let rest = sub_chars(line.as_slice(), 4, line.len());
            assert(rest@ =~= line@.skip(4));
            let t = trim(rest.as_slice());
            let quotes = chars_of("\"'");
            assert(quotes@ =~= seq!['"', '\'']) by {
                reveal_strlit("\"'");
            }
            let v = trim_matches(t.as_slice(), quotes.as_slice());
            if v.len() > 0 {
                return Some(string_of(v.as_slice()));
            } else {
                return None;
            }
        }
        i += 1;
    }
    assert(lv.skip(i as int) =~= Seq::<Seq<char>>::empty());
    None
}

/// Where forge metrics come from: the crawled repository, except for a
/// mirror host whose publiccode.yml declares a repository (an `owner/name`
/// path) on another host.
pub open spec fn forge_target_spec(url: Seq<char>, yml: Option<Seq<char>>) -> Option<
    (Seq<char>, Seq<char>),
> {
    match repo_of(url) {
        None => None,
        Some((host, name)) => if host != MIRROR_HOST@ {
            Some((host, name))
        } else {
            let declared = match yml {
                Some(y) => match declared_url(y) {
                    Some(d) => repo_of(d),
                    None => None,
                },
                None => None,
            };
            match declared {
                Some((dh, dn)) => if dh != host && contains_seq(dn, seq!['/']) {
                    Some((dh, dn))
                } else {
                    Some((host, name))
                },
                None => Some((host, name)),
            }
        },
    }
}

/// Where forge metrics come from, which is the crawled repository for
/// everything except a mirror host declaring a home on another forge.
pub fn forge_target(sw: &Software) -> (r: Option<(String, String)>)
    ensures
        match r {
            Some((h, n)) => forge_target_spec(
                sw.url@,
                match sw.publiccode_yml {
                    Some(y) => Some(y@),
                    None => None,
                },
            ) == Some((h@, n@)),
            None => forge_target_spec(
                sw.url@,
                match sw.publiccode_yml {
                    Some(y) => Some(y@),
                    None => None,
                },
            ) is None,
        },
{
    let (host, full_name) = match parse_repo(sw.url.as_str()) {
        Some(p) => p,
        None => return None,
    };
    if !str_eq(host.as_str(), MIRROR_HOST) {
        return Some((host, full_name));
    }
    let declared = match &sw.publiccode_yml {
        Some(y) => match declared_repo_url(y.as_str()) {
            Some(d) => parse_repo(d.as_str()),
            None => None,
        },
        None => None,
    };
    match declared {
        Some((dh, dn)) => {
            let slash = chars_of("/");
            assert(slash@ =~= seq!['/']) by {
                reveal_strlit("/");
            }
            if !str_eq(dh.as_str(), host.as_str()) && contains(
                chars_of(dn.as_str()).as_slice(),
                slash.as_slice(),
            ) {
                Some((dh, dn))
            } else {
                Some((host, full_name))
            }
        },
        None => Some((host, full_name)),
    }
}

} // verus!
