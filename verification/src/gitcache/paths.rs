//! Where a repository's cache lives on disk.
use vstd::prelude::*;

use crate::text::{chars_of, extend_chars, extend_str, string_of, sub_chars};

verus! {

/// The index of the last `/` in `s`, or -1.
pub open spec fn last_slash(s: Seq<char>) -> int
    decreases s.len(),
{
    if s.len() == 0 {
        -1
    } else if s.last() == '/' {
        s.len() - 1
    } else {
        last_slash(s.drop_last())
    }
}

proof fn lemma_last_slash(s: Seq<char>)
    ensures
        -1 <= last_slash(s) < s.len(),
        last_slash(s) >= 0 ==> s[last_slash(s)] == '/',
        forall|i: int| last_slash(s) < i < s.len() ==> s[i] != '/',
    decreases s.len(),
{
    if s.len() > 0 && s.last() != '/' {
        lemma_last_slash(s.drop_last());
        assert forall|i: int| last_slash(s) < i < s.len() implies s[i] != '/' by {
            if i < s.len() - 1 {
                assert(s[i] == s.drop_last()[i]);
            }
        }
    }
}

/// `str::rsplit_once('/')`, with everything as the name when there is no `/`.
pub open spec fn split_name(s: Seq<char>) -> (Seq<char>, Seq<char>) {
    let i = last_slash(s);
    if i < 0 {
        (Seq::empty(), s)
    } else {
        (s.take(i), s.skip(i + 1))
    }
}

/// Splits `vendor/repo` at its last slash; a name without one has an empty vendor.
pub fn split_full_name(name: &str) -> (r: (String, String))
    ensures
        (r.0@, r.1@) == split_name(name@),
{
    let c = chars_of(name);
    let mut i: usize = c.len();
    while i > 0 && c[i - 1] != '/'
        invariant
            i <= c@.len(),
            forall|k: int| i <= k < c@.len() ==> c@[k] != '/',
        decreases i,
    {
        i -= 1;
    }
    proof {
        lemma_last_slash(c@);
        let l = last_slash(c@);
        if i > 0 {
            assert(l == i - 1) by {
                if l < i - 1 {
                    assert(c@[i - 1] == '/');
                }
            }
        } else {
            assert(l < 0) by {
                if l >= 0 {
                    assert(c@[l] == '/');
                }
            }
        }
    }
    if i == 0 {
        (String::new(), string_of(c.as_slice()))
    } else {
        let vendor = sub_chars(c.as_slice(), 0, i - 1);
        let repo = sub_chars(c.as_slice(), i, c.len());
        assert(vendor@ =~= c@.take(i - 1));
        assert(repo@ =~= c@.skip(i as int));
        (string_of(vendor.as_slice()), string_of(repo.as_slice()))
    }
}

/// `PathBuf::push` on Unix: an absolute path replaces the base, otherwise a
/// separator is added when the base is nonempty and does not end in one.
pub open spec fn path_push(base: Seq<char>, p: Seq<char>) -> Seq<char> {
    if p.len() > 0 && p[0] == '/' {
        p
    } else if base.len() > 0 && base.last() != '/' {
        base + seq!['/'] + p
    } else {
        base + p
    }
}

/// Where the cache of a repository lives under `root`.
pub open spec fn cache_path_spec(root: Seq<char>, host: Seq<char>, full_name: Seq<char>) -> Seq<
    char,
> {
    let (vendor, repo) = split_name(full_name);
    path_push(
        path_push(path_push(path_push(path_push(root, "repos"@), host), vendor), repo),
        "vitality.json"@,
    )
}

fn push_path(base: &mut Vec<char>, p: &[char])
    ensures
        final(base)@ == path_push(old(base)@, p@),
{
    if p.len() > 0 && p[0] == '/' {
        base.clear();
        extend_chars(base, p);
        assert(final(base)@ =~= path_push(old(base)@, p@));
    } else {
        if base.len() > 0 && base[base.len() - 1] != '/' {
            base.push('/');
        }
        extend_chars(base, p);
        assert(final(base)@ =~= path_push(old(base)@, p@));
    }
}

/// `root/repos/<host>/<vendor>/<repo>/vitality.json`, joined as `Path::join` joins.
pub fn cache_path(root: &str, host: &str, full_name: &str) -> (r: String)
    ensures
        r@ == cache_path_spec(root@, host@, full_name@),
{
    let (vendor, repo) = split_full_name(full_name);
    let mut p: Vec<char> = Vec::new();
    extend_str(&mut p, root);
    assert(p@ =~= root@);
    push_path(&mut p, chars_of("repos").as_slice());
    push_path(&mut p, chars_of(host).as_slice());
    push_path(&mut p, chars_of(vendor.as_str()).as_slice());
    push_path(&mut p, chars_of(repo.as_str()).as_slice());
    push_path(&mut p, chars_of("vitality.json").as_slice());
    string_of(p.as_slice())
}

/// The directory the caches live under: `XDG_CACHE_HOME` when it is set
/// and absolute (a relative one is ignored per the XDG spec), else
/// `$HOME/.cache`, else the temporary directory; then the app's subdir.
pub open spec fn cache_root_spec(xdg: Option<Seq<char>>, home: Option<Seq<char>>, temp: Seq<char>) -> Seq<char> {
    let base = match xdg {
        Some(x) => if x.len() > 0 && x[0] == '/' {
            x
        } else {
            match home {
                Some(h) => path_push(h, ".cache"@),
                None => temp,
            }
        },
        None => match home {
            Some(h) => path_push(h, ".cache"@),
            None => temp,
        },
    };
    path_push(base, "activity-metrics-collector"@)
}

/// The cache directory, from the values of `XDG_CACHE_HOME` and `HOME`
/// and the temporary directory.
pub fn cache_root(xdg: Option<&str>, home: Option<&str>, temp: &str) -> (r: String)
    ensures
        r@ == cache_root_spec(
            match xdg {
                Some(x) => Some(x@),
                None => None,
            },
            match home {
                Some(h) => Some(h@),
                None => None,
            },
            temp@,
        ),
{
    let absolute = match xdg {
        Some(x) => {
            let c = chars_of(x);
            if c.len() > 0 && c[0] == '/' {
                Some(c)
            } else {
                None
            }
        },
        None => None,
    };
    let mut p: Vec<char> = match absolute {
        Some(c) => c,
        None => match home {
            Some(h) => {
                let mut v = chars_of(h);
                push_path(&mut v, chars_of(".cache").as_slice());
                v
            },
            None => chars_of(temp),
        },
    };
    push_path(&mut p, chars_of("activity-metrics-collector").as_slice());
    string_of(p.as_slice())
}

/// A full name without empty parts: nonempty, not beginning or ending
/// with `/`, and without two `/` in a row.
pub open spec fn plain_name(s: Seq<char>) -> bool {
    &&& s.len() > 0
    &&& s[0] != '/'
    &&& s.last() != '/'
    &&& forall|i: int| 0 <= i < s.len() - 1 && #[trigger] s[i] == '/' ==> s[i + 1] != '/'
}

/// The directory the repositories of `host` live in under `root`, with a
/// trailing separator.
pub open spec fn host_dir(root: Seq<char>, host: Seq<char>) -> Seq<char> {
    let b = path_push(path_push(root, "repos"@), host);
    if b.len() > 0 && b.last() == '/' {
        b
    } else {
        b + seq!['/']
    }
}

/// The cache of a repository with a plain full name is the file
/// `vitality.json` in the directory named by the whole full name (vendor,
/// `/`, repository) under the host's directory.
pub proof fn lemma_cache_path_names_the_repository(root: Seq<char>, host: Seq<char>, full_name: Seq<char>)
    requires
        plain_name(full_name),
    ensures
        cache_path_spec(root, host, full_name) == host_dir(root, host) + full_name
            + "/vitality.json"@,
{
    reveal_strlit("repos");
    reveal_strlit("vitality.json");
    reveal_strlit("/vitality.json");
    let s = full_name;
    let r0 = path_push(root, "repos"@);
    assert(r0.len() > 0);
    let b = path_push(r0, host);
    assert(b.len() > 0);
    let j = host_dir(root, host);
    assert(j.len() > 0 && j.last() == '/');
    lemma_last_slash(s);
    let k = last_slash(s);
    let (vendor, repo) = split_name(s);
    if k < 0 {
        assert(vendor.len() == 0);
        assert(repo == s);
        assert(path_push(b, vendor) =~= j);
        assert(path_push(j, repo) =~= j + s);
    } else {
        assert(vendor =~= s.take(k));
        assert(repo =~= s.skip(k + 1));
        assert(k > 0);
        assert(k < s.len() - 1);
        assert(vendor[0] == s[0]);
        assert(vendor.last() == s[k - 1]);
        assert(s[k - 1] != '/');
        assert(repo[0] == s[k + 1]);
        assert(path_push(b, vendor) =~= j + vendor);
        assert((j + vendor).last() == vendor.last());
        assert(path_push(j + vendor, repo) =~= j + vendor + seq!['/'] + repo);
        assert(j + vendor + seq!['/'] + repo =~= j + s);
    }
    assert((j + s).last() == s.last());
    assert(path_push(j + s, "vitality.json"@) =~= j + s + "/vitality.json"@);
}

/// Different repositories of a host have different cache files: two
/// distinct plain full names never share a cache path.
pub proof fn lemma_cache_paths_distinct(root: Seq<char>, host: Seq<char>, a: Seq<char>, b: Seq<char>)
    requires
        plain_name(a),
        plain_name(b),
        a != b,
    ensures
        cache_path_spec(root, host, a) != cache_path_spec(root, host, b),
{
    lemma_cache_path_names_the_repository(root, host, a);
    lemma_cache_path_names_the_repository(root, host, b);
    reveal_strlit("/vitality.json");
    let j = host_dir(root, host);
    let t = "/vitality.json"@;
    if j + a + t == j + b + t {
        assert((j + a + t).len() == j.len() + a.len() + t.len());
        assert((j + b + t).len() == j.len() + b.len() + t.len());
        assert(a.len() == b.len());
        assert forall|i: int| 0 <= i < a.len() implies a[i] == b[i] by {
            assert((j + a + t)[j.len() + i] == a[i]);
            assert((j + b + t)[j.len() + i] == b[i]);
        }
        assert(a =~= b);
    }
}

} // verus!
