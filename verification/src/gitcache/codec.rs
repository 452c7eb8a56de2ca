//! The binary cache format.
//!
//! Layout, all integers little endian:
//! version `u8` (= 1), `last_updated`, `oldest_commit`, `first_entry` as
//! `u16` days since 1980-01-01 (clamped to `0..=65535`), then
//! `u16` author count and each author as UTF-8 followed by a NUL byte,
//! `u16` tag count and each tag as `delta, count`,
//! `u16` entry count and each entry as `delta, commits, merges, n` followed
//! by `n` author ids.
use vstd::prelude::*;
use vstd::slice::{slice_subrange, slice_to_vec};
use vstd::utf8::*;

use super::{Cache, CacheView, DayEntry, DayEntryView, JulianDay, TagEntry};

verus! {

/// The only format version this code reads and writes.
pub const CACHE_VERSION: u8 = 1;

/// 1980-01-01, the day that stored dates count from.
pub const EPOCH_DAY: JulianDay = 2_444_240;

/// Why a cache could not be written or read.
#[derive(Clone, Copy, Debug, PartialEq, Eq)]
pub enum CodecError {
    TooManyAuthors,
    TooManyTags,
    TooManyEntries,
    TooManyEntryAuthors,
    UnexpectedEnd,
    UnterminatedString,
    InvalidUtf8,
    UnsupportedVersion(u8),
}

// ---------------------------------------------------------------------------
// The byte format, as mathematics.
// ---------------------------------------------------------------------------

/// Days since 1980-01-01, clamped into what a `u16` holds.
pub open spec fn spec_days_from_epoch(d: JulianDay) -> u16 {
    if d < EPOCH_DAY {
        0
    } else if d - EPOCH_DAY > 65535 {
        65535
    } else {
        (d - EPOCH_DAY) as u16
    }
}

/// The day `n` days after 1980-01-01.
pub open spec fn spec_days_to_date(n: u16) -> JulianDay {
    (EPOCH_DAY + n) as JulianDay
}

/// Little-endian bytes of a `u16`.
pub open spec fn le16(x: u16) -> Seq<u8> {
    seq![(x % 256) as u8, (x / 256) as u8]
}

/// The concatenation of `f` applied to each element of `s`.
pub open spec fn flat<T>(s: Seq<T>, f: spec_fn(T) -> Seq<u8>) -> Seq<u8>
    decreases s.len(),
{
    if s.len() == 0 {
        Seq::empty()
    } else {
        f(s[0]) + flat(s.drop_first(), f)
    }
}

/// A string as UTF-8 followed by a NUL byte.
pub open spec fn cstr_bytes(s: Seq<char>) -> Seq<u8> {
    encode_utf8(s).push(0u8)
}

/// The author names written one after the other.
pub open spec fn authors_bytes(a: Seq<Seq<char>>) -> Seq<u8> {
    flat(a, |s: Seq<char>| cstr_bytes(s))
}

/// One tag entry: its delta, then its count.
pub open spec fn tag_bytes(t: TagEntry) -> Seq<u8> {
    le16(t.delta) + le16(t.count)
}

/// The tag entries one after the other.
pub open spec fn tags_bytes(t: Seq<TagEntry>) -> Seq<u8> {
    flat(t, |x: TagEntry| tag_bytes(x))
}

/// Author ids one after the other.
pub open spec fn ids_bytes(ids: Seq<u16>) -> Seq<u8> {
    flat(ids, |x: u16| le16(x))
}

/// One day entry: delta, commits, merges, the number of authors, their ids.
pub open spec fn entry_bytes(e: DayEntryView) -> Seq<u8> {
    le16(e.delta) + le16(e.commits) + le16(e.merges) + le16(e.authors.len() as u16) + ids_bytes(
        e.authors,
    )
}

/// The day entries one after the other.
pub open spec fn entries_bytes(e: Seq<DayEntryView>) -> Seq<u8> {
    flat(e, |x: DayEntryView| entry_bytes(x))
}

/// The fixed-size head: version and the three dates.
pub open spec fn head_bytes(c: CacheView) -> Seq<u8> {
    seq![CACHE_VERSION] + le16(spec_days_from_epoch(c.last_updated)) + le16(
        spec_days_from_epoch(c.oldest_commit),
    ) + le16(spec_days_from_epoch(c.first_entry))
}

/// The bytes that [`encode`] writes for a cache.
pub open spec fn cache_bytes(c: CacheView) -> Seq<u8> {
    head_bytes(c) + le16(c.authors.len() as u16) + authors_bytes(c.authors) + le16(
        c.tags.len() as u16,
    ) + tags_bytes(c.tags) + le16(c.entries.len() as u16) + entries_bytes(c.entries)
}

/// The first count that does not fit the format, in the order `encode` checks them.
pub open spec fn encode_error(c: CacheView) -> Option<CodecError> {
    if c.authors.len() > 65535 {
        Some(CodecError::TooManyAuthors)
    } else if c.tags.len() > 65535 {
        Some(CodecError::TooManyTags)
    } else if c.entries.len() > 65535 {
        Some(CodecError::TooManyEntries)
    } else if exists|i: int| 0 <= i < c.entries.len() && c.entries[i].authors.len() > 65535 {
        Some(CodecError::TooManyEntryAuthors)
    } else {
        None
    }
}

// ---------------------------------------------------------------------------
// Reading, as mathematics: each reader takes the data and a position and
// gives the value read and the position after it.
// ---------------------------------------------------------------------------

/// The byte at `p`, and the position after it.
pub open spec fn read_u8(d: Seq<u8>, p: int) -> Result<(u8, int), CodecError> {
    if 0 <= p < d.len() {
        Ok((d[p], p + 1))
    } else {
        Err(CodecError::UnexpectedEnd)
    }
}

/// The little-endian `u16` at `p`, and the position after it.
pub open spec fn read_u16(d: Seq<u8>, p: int) -> Result<(u16, int), CodecError> {
    if 0 <= p && p + 2 <= d.len() {
        Ok(((d[p] + 256 * d[p + 1]) as u16, p + 2))
    } else {
        Err(CodecError::UnexpectedEnd)
    }
}

/// The position of the first NUL byte at or after `p`, or `d.len()` when there is none.
pub open spec fn first_zero(d: Seq<u8>, p: int) -> int
    decreases d.len() - p,
{
    if p < 0 || p >= d.len() {
        d.len() as int
    } else if d[p] == 0 {
        p
    } else {
        first_zero(d, p + 1)
    }
}

/// The NUL-terminated UTF-8 string at `p`, and the position after its NUL.
pub open spec fn read_cstr(d: Seq<u8>, p: int) -> Result<(Seq<char>, int), CodecError> {
    let z = first_zero(d, p);
    if z >= d.len() {
        Err(CodecError::UnterminatedString)
    } else if valid_utf8(d.subrange(p, z)) {
        Ok((decode_utf8(d.subrange(p, z)), z + 1))
    } else {
        Err(CodecError::InvalidUtf8)
    }
}

/// `r` with `acc` put in front of the list it holds.
pub open spec fn prepend<T>(acc: Seq<T>, r: Result<(Seq<T>, int), CodecError>) -> Result<
    (Seq<T>, int),
    CodecError,
> {
    match r {
        Ok((rest, q)) => Ok((acc + rest, q)),
        Err(e) => Err(e),
    }
}

/// `n` author names from `p`.
pub open spec fn read_authors(d: Seq<u8>, p: int, n: nat) -> Result<(Seq<Seq<char>>, int), CodecError>
    decreases n,
{
    if n == 0 {
        Ok((Seq::empty(), p))
    } else {
        match read_cstr(d, p) {
            Ok((s, q)) => prepend(seq![s], read_authors(d, q, (n - 1) as nat)),
            Err(e) => Err(e),
        }
    }
}

/// The tag entry at `p`.
pub open spec fn read_tag(d: Seq<u8>, p: int) -> Result<(TagEntry, int), CodecError> {
    match read_u16(d, p) {
        Ok((delta, q)) => match read_u16(d, q) {
            Ok((count, r)) => Ok((TagEntry { delta, count }, r)),
            Err(e) => Err(e),
        },
        Err(e) => Err(e),
    }
}

/// `n` tag entries from `p`.
pub open spec fn read_tags(d: Seq<u8>, p: int, n: nat) -> Result<(Seq<TagEntry>, int), CodecError>
    decreases n,
{
    if n == 0 {
        Ok((Seq::empty(), p))
    } else {
        match read_tag(d, p) {
            Ok((t, q)) => prepend(seq![t], read_tags(d, q, (n - 1) as nat)),
            Err(e) => Err(e),
        }
    }
}

/// `n` author ids from `p`.
pub open spec fn read_ids(d: Seq<u8>, p: int, n: nat) -> Result<(Seq<u16>, int), CodecError>
    decreases n,
{
    if n == 0 {
        Ok((Seq::empty(), p))
    } else {
        match read_u16(d, p) {
            Ok((x, q)) => prepend(seq![x], read_ids(d, q, (n - 1) as nat)),
            Err(e) => Err(e),
        }
    }
}

/// The day entry at `p`.
pub open spec fn read_entry(d: Seq<u8>, p: int) -> Result<(DayEntryView, int), CodecError> {
    match read_u16(d, p) {
        Err(e) => Err(e),
        Ok((delta, p1)) => match read_u16(d, p1) {
            Err(e) => Err(e),
            Ok((commits, p2)) => match read_u16(d, p2) {
                Err(e) => Err(e),
                Ok((merges, p3)) => match read_u16(d, p3) {
                    Err(e) => Err(e),
                    Ok((n, p4)) => match read_ids(d, p4, n as nat) {
                        Err(e) => Err(e),
                        Ok((authors, p5)) => Ok((DayEntryView { delta, commits, merges, authors }, p5)),
                    },
                },
            },
        },
    }
}

/// `n` day entries from `p`.
pub open spec fn read_entries(d: Seq<u8>, p: int, n: nat) -> Result<(Seq<DayEntryView>, int), CodecError>
    decreases n,
{
    if n == 0 {
        Ok((Seq::empty(), p))
    } else {
        match read_entry(d, p) {
            Ok((e, q)) => prepend(seq![e], read_entries(d, q, (n - 1) as nat)),
            Err(e) => Err(e),
        }
    }
}

/// What [`decode`] reads from `d`: a cache, or the first problem met.
/// Bytes after the last entry are not looked at.
pub open spec fn read_cache(d: Seq<u8>) -> Result<CacheView, CodecError> {
    match read_u8(d, 0) {
        Err(e) => Err(e),
        Ok((ver, p0)) => if ver != CACHE_VERSION {
            Err(CodecError::UnsupportedVersion(ver))
        } else {
            match read_u16(d, p0) {
                Err(e) => Err(e),
                Ok((lu, p1)) => match read_u16(d, p1) {
                    Err(e) => Err(e),
                    Ok((oc, p2)) => match read_u16(d, p2) {
                        Err(e) => Err(e),
                        Ok((fe, p3)) => match read_u16(d, p3) {
                            Err(e) => Err(e),
                            Ok((na, p4)) => match read_authors(d, p4, na as nat) {
                                Err(e) => Err(e),
                                Ok((authors, p5)) => match read_u16(d, p5) {
                                    Err(e) => Err(e),
                                    Ok((nt, p6)) => match read_tags(d, p6, nt as nat) {
                                        Err(e) => Err(e),
                                        Ok((tags, p7)) => match read_u16(d, p7) {
                                            Err(e) => Err(e),
                                            Ok((ne, p8)) => match read_entries(d, p8, ne as nat) {
                                                Err(e) => Err(e),
                                                Ok((entries, _p9)) => Ok(
                                                    CacheView {
                                                        last_updated: spec_days_to_date(lu),
                                                        oldest_commit: spec_days_to_date(oc),
                                                        first_entry: spec_days_to_date(fe),
                                                        authors,
                                                        entries,
                                                        tags,
                                                    },
                                                ),
                                            },
                                        },
                                    },
                                },
                            },
                        },
                    },
                },
            }
        }
    }
}

// ---------------------------------------------------------------------------
// Writing.
// ---------------------------------------------------------------------------

/// Days since 1980-01-01, clamped to what a `u16` holds.
pub fn days_from_epoch(d: JulianDay) -> (r: u16)
    ensures
        r == spec_days_from_epoch(d),
{
    if d < EPOCH_DAY {
        0
    } else if d - EPOCH_DAY > 65535 {
        65535
    } else {
        (d - EPOCH_DAY) as u16
    }
}

/// The day `days` days after 1980-01-01.
pub fn days_to_date(days: u16) -> (r: JulianDay)
    ensures
        r == spec_days_to_date(days),
{
    EPOCH_DAY + days as i32
}

proof fn lemma_flat_push<T>(s: Seq<T>, f: spec_fn(T) -> Seq<u8>, x: T)
    ensures
        flat(s.push(x), f) == flat(s, f) + f(x),
    decreases s.len(),
{
    if s.len() == 0 {
        assert(s.push(x).drop_first() =~= Seq::<T>::empty());
        assert(flat(s.push(x).drop_first(), f) =~= Seq::<u8>::empty());
        assert(s.push(x)[0] == x);
        assert(flat(s.push(x), f) =~= f(x));
        assert(flat(s, f) =~= Seq::<u8>::empty());
    } else {
        assert(s.push(x).drop_first() =~= s.drop_first().push(x));
        lemma_flat_push(s.drop_first(), f, x);
        assert(flat(s.push(x), f) =~= flat(s, f) + f(x));
    }
}

proof fn lemma_flat_take_step<T>(s: Seq<T>, f: spec_fn(T) -> Seq<u8>, i: int)
    requires
        0 <= i < s.len(),
    ensures
        flat(s.take(i + 1), f) == flat(s.take(i), f) + f(s[i]),
{
    assert(s.take(i + 1) =~= s.take(i).push(s[i]));
    lemma_flat_push(s.take(i), f, s[i]);
}

fn push_u16(buf: &mut Vec<u8>, x: u16)
    ensures
        final(buf)@ == old(buf)@ + le16(x),
{
    buf.push((x % 256) as u8);
    buf.push((x / 256) as u8);
    assert(final(buf)@ =~= old(buf)@ + le16(x));
}

fn push_bytes(buf: &mut Vec<u8>, b: &[u8])
    ensures
        final(buf)@ == old(buf)@ + b@,
{
    let ghost start = buf@;
    for i in 0..b.len()
        invariant
            buf@ == start + b@.take(i as int),
    {
        buf.push(b[i]);
        assert(b@.take(i + 1) =~= b@.take(i as int).push(b@[i as int]));
        assert(buf@ =~= start + b@.take(i + 1));
    }
    assert(b@.take(b.len() as int) =~= b@);
}

/// Writes a cache in the binary format.
pub fn encode(cache: &Cache) -> (r: Result<Vec<u8>, CodecError>)
    ensures
        match encode_error(cache@) {
            Some(e) => r == Err::<Vec<u8>, CodecError>(e),
            None => r matches Ok(v) && v@ == cache_bytes(cache@),
        },
{
    let ghost c = cache@;
    let mut buf: Vec<u8> = Vec::new();
    buf.push(CACHE_VERSION);
    push_u16(&mut buf, days_from_epoch(cache.last_updated));
    push_u16(&mut buf, days_from_epoch(cache.oldest_commit));
    push_u16(&mut buf, days_from_epoch(cache.first_entry));
    assert(buf@ =~= head_bytes(c));

    if cache.authors.len() > 65535 {
        return Err(CodecError::TooManyAuthors);
    }
    let n_authors = cache.authors.len() as u16;
    push_u16(&mut buf, n_authors);
    let ghost before_authors = buf@;
    for i in 0..cache.authors.len()
        invariant
            c == cache@,
            buf@ == before_authors + authors_bytes(c.authors.take(i as int)),
    {
        let b = cache.authors[i].as_str().as_bytes();
        push_bytes(&mut buf, b);
        buf.push(0);
        proof {
            lemma_flat_take_step(c.authors, |s: Seq<char>| cstr_bytes(s), i as int);
            assert(c.authors[i as int] == cache.authors@[i as int]@);
            assert(buf@ =~= before_authors + authors_bytes(c.authors.take(i + 1)));
        }
    }
    assert(c.authors.take(c.authors.len() as int) =~= c.authors);

    if cache.tags.len() > 65535 {
        return Err(CodecError::TooManyTags);
    }
    push_u16(&mut buf, cache.tags.len() as u16);
    let ghost before_tags = buf@;
    for i in 0..cache.tags.len()
        invariant
            c == cache@,
            buf@ == before_tags + tags_bytes(c.tags.take(i as int)),
    {
        let t = cache.tags[i];
        push_u16(&mut buf, t.delta);
        push_u16(&mut buf, t.count);
        proof {
            lemma_flat_take_step(c.tags, |x: TagEntry| tag_bytes(x), i as int);
            assert(buf@ =~= before_tags + tags_bytes(c.tags.take(i + 1)));
        }
    }
    assert(c.tags.take(c.tags.len() as int) =~= c.tags);

    if cache.entries.len() > 65535 {
        return Err(CodecError::TooManyEntries);
    }
    push_u16(&mut buf, cache.entries.len() as u16);
    let ghost before_entries = buf@;
    for i in 0..cache.entries.len()
        invariant
            c == cache@,
            c.entries.len() <= 65535,
            c.authors.len() <= 65535,
            c.tags.len() <= 65535,
            forall|j: int| 0 <= j < i ==> (#[trigger] c.entries[j]).authors.len() <= 65535,
            buf@ == before_entries + entries_bytes(c.entries.take(i as int)),
    {
        let e = &cache.entries[i];
        assert(c.entries[i as int] == e@);
        push_u16(&mut buf, e.delta);
        push_u16(&mut buf, e.commits);
        push_u16(&mut buf, e.merges);
        if e.authors.len() > 65535 {
            assert(encode_error(c) == Some(CodecError::TooManyEntryAuthors));
            return Err(CodecError::TooManyEntryAuthors);
        }
        push_u16(&mut buf, e.authors.len() as u16);
        let ghost before_ids = buf@;
        for k in 0..e.authors.len()
            invariant
                buf@ == before_ids + ids_bytes(e.authors@.take(k as int)),
        {
            push_u16(&mut buf, e.authors[k]);
            proof {
                lemma_flat_take_step(e.authors@, |x: u16| le16(x), k as int);
                assert(buf@ =~= before_ids + ids_bytes(e.authors@.take(k + 1)));
            }
        }
        proof {
            assert(e.authors@.take(e.authors.len() as int) =~= e.authors@);
            lemma_flat_take_step(c.entries, |x: DayEntryView| entry_bytes(x), i as int);
            assert(buf@ =~= before_entries + entries_bytes(c.entries.take(i + 1)));
        }
    }
    assert(c.entries.take(c.entries.len() as int) =~= c.entries);
    assert(encode_error(c) is None);
    assert(buf@ =~= cache_bytes(c));
    Ok(buf)
}

// ---------------------------------------------------------------------------
// Reading.
// ---------------------------------------------------------------------------

/// `String::from_utf8`: the bytes as a string when they are well-formed UTF-8.
#[verifier::external_body]
fn string_from_utf8(bytes: Vec<u8>) -> (r: Option<String>)
    ensures
        r is Some <==> valid_utf8(bytes@),
        r matches Some(s) ==> s@ == decode_utf8(bytes@),
{
    String::from_utf8(bytes).ok()
}

proof fn lemma_first_zero_step(d: Seq<u8>, p: int)
    requires
        0 <= p < d.len(),
        d[p] != 0,
    ensures
        first_zero(d, p) == first_zero(d, p + 1),
{
}

proof fn lemma_prepend_step<T>(acc: Seq<T>, x: T, r: Result<(Seq<T>, int), CodecError>)
    ensures
        prepend(acc, prepend(seq![x], r)) == prepend(acc.push(x), r),
{
    match r {
        Ok((rest, q)) => {
            assert(acc + (seq![x] + rest) =~= acc.push(x) + rest);
        },
        Err(e) => {},
    }
}

/// A cursor over the bytes being decoded.
struct Reader<'a> {
    data: &'a [u8],
    pos: usize,
}

impl<'a> Reader<'a> {
    spec fn ok_at<T>(r: Result<T, CodecError>, spec_r: Result<(T, int), CodecError>, new_pos: usize) -> bool {
        match spec_r {
            Ok((v, p)) => r == Ok::<T, CodecError>(v) && new_pos == p,
            Err(e) => r == Err::<T, CodecError>(e),
        }
    }

    fn u8(&mut self) -> (r: Result<u8, CodecError>)
        requires
            old(self).pos <= old(self).data@.len(),
        ensures
            final(self).data@ == old(self).data@,
            final(self).pos <= final(self).data@.len(),
            Self::ok_at(r, read_u8(old(self).data@, old(self).pos as int), final(self).pos),
    {
        if self.pos >= self.data.len() {
            return Err(CodecError::UnexpectedEnd);
        }
        let b = self.data[self.pos];
        self.pos += 1;
        Ok(b)
    }

    fn u16(&mut self) -> (r: Result<u16, CodecError>)
        requires
            old(self).pos <= old(self).data@.len(),
        ensures
            final(self).data@ == old(self).data@,
            final(self).pos <= final(self).data@.len(),
            Self::ok_at(r, read_u16(old(self).data@, old(self).pos as int), final(self).pos),
    {
        if self.data.len() - self.pos < 2 {
            return Err(CodecError::UnexpectedEnd);
        }
        let lo = self.data[self.pos];
        let hi = self.data[self.pos + 1];
        self.pos += 2;
        Ok(lo as u16 + 256 * hi as u16)
    }

    fn cstr(&mut self) -> (r: Result<String, CodecError>)
        requires
            old(self).pos <= old(self).data@.len(),
        ensures
            final(self).data@ == old(self).data@,
            final(self).pos <= final(self).data@.len(),
            match read_cstr(old(self).data@, old(self).pos as int) {
                Ok((s, p)) => r matches Ok(x) && x@ == s && final(self).pos == p,
                Err(e) => r == Err::<String, CodecError>(e),
            },
    {
        let ghost d = self.data@;
        let start = self.pos;
        while self.pos < self.data.len() && self.data[self.pos] != 0
            invariant
                self.data@ == d,
                start <= self.pos <= d.len(),
                first_zero(d, start as int) == first_zero(d, self.pos as int),
            decreases d.len() - self.pos,
        {
            proof {
                lemma_first_zero_step(d, self.pos as int);
            }
            self.pos += 1;
        }
        if self.pos >= self.data.len() {
            return Err(CodecError::UnterminatedString);
        }
        let bytes = slice_to_vec(slice_subrange(self.data, start, self.pos));
        match string_from_utf8(bytes) {
            Some(s) => {
                self.pos += 1;
                Ok(s)
            },
            None => Err(CodecError::InvalidUtf8),
        }
    }
}

/// Reads a cache written by [`encode`]. Bytes after the last entry are ignored.
#[verifier::loop_isolation(false)]
pub fn decode(data: &[u8]) -> (r: Result<Cache, CodecError>)
    ensures
        r is Ok <==> read_cache(data@) is Ok,
        r matches Ok(c) ==> read_cache(data@) == Ok::<CacheView, CodecError>(c@),
        r matches Err(e) ==> read_cache(data@) == Err::<CacheView, CodecError>(e),
{
    let ghost d = data@;
    let mut r = Reader { data, pos: 0 };
    let ver = r.u8()?;
    if ver != CACHE_VERSION {
        return Err(CodecError::UnsupportedVersion(ver));
    }
    let last_updated = days_to_date(r.u16()?);
    let oldest_commit = days_to_date(r.u16()?);
    let first_entry = days_to_date(r.u16()?);

    let n_authors = r.u16()?;
    let ghost p4 = r.pos as int;
    let mut authors: Vec<String> = Vec::new();
    let mut i: u16 = 0;
    while i < n_authors
        invariant
            r.data@ == d,
            r.pos <= d.len(),
            i <= n_authors,
            read_authors(d, p4, n_authors as nat) == prepend(
                authors@.map_values(|a: String| a@),
                read_authors(d, r.pos as int, (n_authors - i) as nat),
            ),
        decreases n_authors - i,
    {
        let ghost before = authors@.map_values(|a: String| a@);
        let ghost pos = r.pos as int;
        let s = r.cstr()?;
        proof {
            lemma_prepend_step(before, s@, read_authors(d, r.pos as int, (n_authors - i - 1) as nat));
        }
        authors.push(s);
        assert(authors@.map_values(|a: String| a@) =~= before.push(s@));
        i += 1;
    }
    assert(read_authors(d, r.pos as int, 0) == Ok::<(Seq<Seq<char>>, int), CodecError>((Seq::empty(), r.pos as int)));
    assert(authors@.map_values(|a: String| a@) + Seq::<Seq<char>>::empty() =~= authors@.map_values(|a: String| a@));

    let n_tags = r.u16()?;
    let ghost p6 = r.pos as int;
    let mut tags: Vec<TagEntry> = Vec::new();
    let mut i: u16 = 0;
    while i < n_tags
        invariant
            r.data@ == d,
            r.pos <= d.len(),
            i <= n_tags,
            read_tags(d, p6, n_tags as nat) == prepend(tags@, read_tags(d, r.pos as int, (n_tags - i) as nat)),
        decreases n_tags - i,
    {
        let delta = r.u16()?;
        let count = r.u16()?;
        let t = TagEntry { delta, count };
        proof {
            lemma_prepend_step(tags@, t, read_tags(d, r.pos as int, (n_tags - i - 1) as nat));
        }
        tags.push(t);
        i += 1;
    }
    assert(tags@ + Seq::<TagEntry>::empty() =~= tags@);

    let n_entries = r.u16()?;
    let ghost p8 = r.pos as int;
    let mut entries: Vec<DayEntry> = Vec::new();
    let mut i: u16 = 0;
    while i < n_entries
        invariant
            r.data@ == d,
            r.pos <= d.len(),
            i <= n_entries,
            read_entries(d, p8, n_entries as nat) == prepend(
                entries@.map_values(|e: DayEntry| e@),
                read_entries(d, r.pos as int, (n_entries - i) as nat),
            ),
        decreases n_entries - i,
    {
        let ghost before = entries@.map_values(|e: DayEntry| e@);
        let ghost pos = r.pos as int;
        let delta = r.u16()?;
        let commits = r.u16()?;
        let merges = r.u16()?;
        let n = r.u16()?;
        let ghost q4 = r.pos as int;
        let mut a: Vec<u16> = Vec::new();
        let mut k: u16 = 0;
        while k < n
            invariant
                r.data@ == d,
                r.pos <= d.len(),
                k <= n,
                read_ids(d, q4, n as nat) == prepend(a@, read_ids(d, r.pos as int, (n - k) as nat)),
            decreases n - k,
        {
            let x = r.u16()?;
            proof {
                lemma_prepend_step(a@, x, read_ids(d, r.pos as int, (n - k - 1) as nat));
            }
            a.push(x);
            k += 1;
        }
        assert(a@ + Seq::<u16>::empty() =~= a@);
        let e = DayEntry { delta, commits, merges, authors: a };
        proof {
            lemma_prepend_step(before, e@, read_entries(d, r.pos as int, (n_entries - i - 1) as nat));
        }
        entries.push(e);
        assert(entries@.map_values(|e: DayEntry| e@) =~= before.push(e@));
        i += 1;
    }
    assert(entries@.map_values(|e: DayEntry| e@) + Seq::<DayEntryView>::empty() =~= entries@.map_values(|e: DayEntry| e@));

    let cache = Cache { last_updated, oldest_commit, first_entry, authors, entries, tags };
    assert(read_cache(d) == Ok::<CacheView, CodecError>(cache@));
    Ok(cache)
}

// ---------------------------------------------------------------------------
// Laws of the format.
// ---------------------------------------------------------------------------

/// `b` stands in `d` at position `p`.
pub open spec fn has_at(d: Seq<u8>, p: int, b: Seq<u8>) -> bool {
    0 <= p && p + b.len() <= d.len() && d.subrange(p, p + b.len()) == b
}

/// No author name holds a NUL character.
pub open spec fn no_nul(s: Seq<char>) -> bool {
    forall|i: int| 0 <= i < s.len() ==> s[i] != '\0'
}

/// No byte is 0.
pub open spec fn no_zero(b: Seq<u8>) -> bool {
    forall|i: int| 0 <= i < b.len() ==> b[i] != 0
}

/// The cache with each date replaced by what the format can hold of it.
pub open spec fn clamp_dates(c: CacheView) -> CacheView {
    CacheView {
        last_updated: spec_days_to_date(spec_days_from_epoch(c.last_updated)),
        oldest_commit: spec_days_to_date(spec_days_from_epoch(c.oldest_commit)),
        first_entry: spec_days_to_date(spec_days_from_epoch(c.first_entry)),
        ..c
    }
}

/// The author names can be stored: none holds a NUL character.
pub open spec fn storable_authors(c: CacheView) -> bool {
    forall|i: int| 0 <= i < c.authors.len() ==> no_nul(#[trigger] c.authors[i])
}

proof fn lemma_has_at_split(d: Seq<u8>, p: int, x: Seq<u8>, y: Seq<u8>)
    ensures
        has_at(d, p, x + y) <==> (has_at(d, p, x) && has_at(d, p + x.len(), y)),
{
    if has_at(d, p, x + y) {
        assert(d.subrange(p, p + x.len()) =~= (x + y).subrange(0, x.len() as int));
        assert(d.subrange(p + x.len(), p + x.len() + y.len()) =~= (x + y).subrange(
            x.len() as int,
            (x.len() + y.len()) as int,
        ));
        assert((x + y).subrange(0, x.len() as int) =~= x);
        assert((x + y).subrange(x.len() as int, (x.len() + y.len()) as int) =~= y);
    }
    if has_at(d, p, x) && has_at(d, p + x.len(), y) {
        assert(d.subrange(p, p + (x + y).len()) =~= d.subrange(p, p + x.len()) + d.subrange(
            p + x.len(),
            p + x.len() + y.len(),
        ));
    }
}

proof fn lemma_read_u16_le16(d: Seq<u8>, p: int, x: u16)
    requires
        has_at(d, p, le16(x)),
    ensures
        read_u16(d, p) == Ok::<(u16, int), CodecError>((x, p + 2)),
{
    assert(d[p] == le16(x)[0]);
    assert(d[p + 1] == le16(x)[1]);
}

proof fn lemma_read_u16_inv(d: Seq<u8>, p: int)
    requires
        read_u16(d, p) is Ok,
    ensures
        has_at(d, p, le16(read_u16(d, p)->Ok_0.0)),
        read_u16(d, p)->Ok_0.1 == p + 2,
{
    let x = read_u16(d, p)->Ok_0.0;
    assert(x == d[p] + 256 * d[p + 1]);
    assert(d.subrange(p, p + 2) =~= le16(x));
}

proof fn lemma_encode_scalar_zero(c: char)
    ensures
        no_zero(encode_scalar(c as u32)) <==> c != '\0',
{
    let v = c as u32;
    char_is_scalar(c);
    if c == '\0' {
        assert(v == 0);
        assert(has_width_1_encoding(v));
        assert((v & 0x7F) as u8 == 0) by (bit_vector)
            requires
                v == 0,
        ;
        assert(encode_scalar(v)[0] == 0);
    } else {
        assert(v != 0) by {
            char_u32_cast(c, v);
            char_u32_cast('\0', 0u32);
        }
        if has_width_1_encoding(v) {
            assert((v & 0x7F) as u8 != 0) by (bit_vector)
                requires
                    v <= 0x7F,
                    v != 0,
            ;
        } else if has_width_2_encoding(v) {
            assert(0xC0u8 | ((v >> 6) & 0x1F) as u8 != 0) by (bit_vector);
            assert(0x80u8 | (v & 0x3F) as u8 != 0) by (bit_vector);
        } else if has_width_3_encoding(v) {
            assert(0xE0u8 | ((v >> 12) & 0x0F) as u8 != 0) by (bit_vector);
            assert(0x80u8 | ((v >> 6) & 0x3F) as u8 != 0) by (bit_vector);
            assert(0x80u8 | (v & 0x3F) as u8 != 0) by (bit_vector);
        } else {
            assert(0xF0u8 | ((v >> 18) & 0x7) as u8 != 0) by (bit_vector);
            assert(0x80u8 | ((v >> 12) & 0x3F) as u8 != 0) by (bit_vector);
            assert(0x80u8 | ((v >> 6) & 0x3F) as u8 != 0) by (bit_vector);
            assert(0x80u8 | (v & 0x3F) as u8 != 0) by (bit_vector);
        }
    }
}

/// UTF-8 holds a zero byte exactly where the text holds a NUL character.
proof fn lemma_encode_utf8_zero(s: Seq<char>)
    ensures
        no_zero(encode_utf8(s)) <==> no_nul(s),
    decreases s.len(),
{
    if s.len() > 0 {
        lemma_encode_utf8_zero(s.drop_first());
        lemma_encode_scalar_zero(s[0]);
        let a = encode_scalar(s[0] as u32);
        let b = encode_utf8(s.drop_first());
        assert(encode_utf8(s) == a + b);
        if no_zero(a + b) {
            assert forall|i: int| 0 <= i < a.len() implies a[i] != 0 by {
                assert((a + b)[i] == a[i]);
            }
            assert forall|i: int| 0 <= i < b.len() implies b[i] != 0 by {
                assert((a + b)[a.len() + i] == b[i]);
            }
            assert forall|i: int| 0 <= i < s.len() implies s[i] != '\0' by {
                if i > 0 {
                    assert(s.drop_first()[i - 1] == s[i]);
                }
            }
        }
        if no_nul(s) {
            assert forall|i: int| 0 <= i < s.drop_first().len() implies s.drop_first()[i] != '\0' by {
                assert(s.drop_first()[i] == s[i + 1]);
            }
            assert(s[0] != '\0');
            assert forall|i: int| 0 <= i < (a + b).len() implies (a + b)[i] != 0 by {
                if i < a.len() {
                    assert((a + b)[i] == a[i]);
                } else {
                    assert((a + b)[i] == b[i - a.len()]);
                }
            }
        }
    }
}

proof fn lemma_first_zero_at(d: Seq<u8>, p: int, z: int)
    requires
        0 <= p <= z < d.len(),
        d[z] == 0,
        forall|i: int| p <= i < z ==> d[i] != 0,
    ensures
        first_zero(d, p) == z,
    decreases z - p,
{
    if p < z {
        lemma_first_zero_at(d, p + 1, z);
    }
}

proof fn lemma_first_zero_found(d: Seq<u8>, p: int)
    requires
        0 <= p,
        first_zero(d, p) < d.len(),
    ensures
        p <= first_zero(d, p),
        d[first_zero(d, p)] == 0,
        forall|i: int| p <= i < first_zero(d, p) ==> d[i] != 0,
    decreases d.len() - p,
{
    if p < d.len() && d[p] != 0 {
        lemma_first_zero_found(d, p + 1);
    }
}

proof fn lemma_read_cstr_enc(d: Seq<u8>, p: int, s: Seq<char>)
    requires
        no_nul(s),
        has_at(d, p, cstr_bytes(s)),
    ensures
        read_cstr(d, p) == Ok::<(Seq<char>, int), CodecError>((s, p + cstr_bytes(s).len())),
{
    let b = encode_utf8(s);
    lemma_encode_utf8_zero(s);
    let z = p + b.len();
    assert forall|i: int| p <= i < z implies d[i] != 0 by {
        assert(d[i] == d.subrange(p, p + cstr_bytes(s).len())[i - p]);
        assert(cstr_bytes(s)[i - p] == b[i - p]);
    }
    assert(d[z] == d.subrange(p, p + cstr_bytes(s).len())[b.len() as int]);
    lemma_first_zero_at(d, p, z);
    assert(d.subrange(p, z) =~= b);
    encode_utf8_valid_utf8(s);
    encode_utf8_decode_utf8(s);
}

proof fn lemma_read_cstr_inv(d: Seq<u8>, p: int)
    requires
        0 <= p,
        read_cstr(d, p) is Ok,
    ensures
        has_at(d, p, cstr_bytes(read_cstr(d, p)->Ok_0.0)),
        no_nul(read_cstr(d, p)->Ok_0.0),
        read_cstr(d, p)->Ok_0.1 == p + cstr_bytes(read_cstr(d, p)->Ok_0.0).len(),
{
    let z = first_zero(d, p);
    lemma_first_zero_found(d, p);
    let b = d.subrange(p, z);
    let s = decode_utf8(b);
    decode_utf8_encode_utf8(b);
    assert(encode_utf8(s) == b);
    assert(no_zero(b));
    lemma_encode_utf8_zero(s);
    assert(d.subrange(p, z + 1) =~= b.push(0u8));
}

proof fn lemma_flat_first<T>(s: Seq<T>, f: spec_fn(T) -> Seq<u8>)
    requires
        s.len() > 0,
    ensures
        flat(s, f) == f(s[0]) + flat(s.drop_first(), f),
{
}

proof fn lemma_read_authors_enc(d: Seq<u8>, p: int, a: Seq<Seq<char>>)
    requires
        forall|i: int| 0 <= i < a.len() ==> no_nul(#[trigger] a[i]),
        has_at(d, p, authors_bytes(a)),
    ensures
        read_authors(d, p, a.len()) == Ok::<(Seq<Seq<char>>, int), CodecError>(
            (a, p + authors_bytes(a).len()),
        ),
    decreases a.len(),
{
    if a.len() > 0 {
        let rest = a.drop_first();
        assert(authors_bytes(a) == cstr_bytes(a[0]) + authors_bytes(rest));
        lemma_has_at_split(d, p, cstr_bytes(a[0]), authors_bytes(rest));
        lemma_read_cstr_enc(d, p, a[0]);
        assert forall|i: int| 0 <= i < rest.len() implies no_nul(#[trigger] rest[i]) by {
            assert(rest[i] == a[i + 1]);
        }
        lemma_read_authors_enc(d, p + cstr_bytes(a[0]).len(), rest);
        assert(seq![a[0]] + rest =~= a);
    } else {
        assert(a =~= Seq::<Seq<char>>::empty());
    }
}

proof fn lemma_read_authors_inv(d: Seq<u8>, p: int, n: nat)
    requires
        0 <= p <= d.len(),
        read_authors(d, p, n) is Ok,
    ensures
        ({
            let (a, q) = read_authors(d, p, n)->Ok_0;
            &&& a.len() == n
            &&& forall|i: int| 0 <= i < a.len() ==> no_nul(#[trigger] a[i])
            &&& has_at(d, p, authors_bytes(a))
            &&& q == p + authors_bytes(a).len()
        }),
    decreases n,
{
    if n > 0 {
        lemma_read_cstr_inv(d, p);
        let (s, q) = read_cstr(d, p)->Ok_0;
        lemma_read_authors_inv(d, q, (n - 1) as nat);
        let (rest, r) = read_authors(d, q, (n - 1) as nat)->Ok_0;
        let a = seq![s] + rest;
        assert(a.drop_first() =~= rest);
        assert(authors_bytes(a) == cstr_bytes(s) + authors_bytes(rest));
        lemma_has_at_split(d, p, cstr_bytes(s), authors_bytes(rest));
        assert forall|i: int| 0 <= i < a.len() implies no_nul(#[trigger] a[i]) by {
            if i > 0 {
                assert(a[i] == rest[i - 1]);
            }
        }
    } else {
        assert(d.subrange(p, p) =~= Seq::<u8>::empty());
    }
}

proof fn lemma_read_tags_enc(d: Seq<u8>, p: int, t: Seq<TagEntry>)
    requires
        has_at(d, p, tags_bytes(t)),
    ensures
        read_tags(d, p, t.len()) == Ok::<(Seq<TagEntry>, int), CodecError>(
            (t, p + tags_bytes(t).len()),
        ),
    decreases t.len(),
{
    if t.len() > 0 {
        let rest = t.drop_first();
        assert(tags_bytes(t) == tag_bytes(t[0]) + tags_bytes(rest));
        lemma_has_at_split(d, p, tag_bytes(t[0]), tags_bytes(rest));
        lemma_has_at_split(d, p, le16(t[0].delta), le16(t[0].count));
        lemma_read_u16_le16(d, p, t[0].delta);
        lemma_read_u16_le16(d, p + 2, t[0].count);
        lemma_read_tags_enc(d, p + 4, rest);
        assert(seq![t[0]] + rest =~= t);
    } else {
        assert(t =~= Seq::<TagEntry>::empty());
    }
}

proof fn lemma_read_tags_inv(d: Seq<u8>, p: int, n: nat)
    requires
        0 <= p <= d.len(),
        read_tags(d, p, n) is Ok,
    ensures
        ({
            let (t, q) = read_tags(d, p, n)->Ok_0;
            &&& t.len() == n
            &&& has_at(d, p, tags_bytes(t))
            &&& q == p + tags_bytes(t).len()
        }),
    decreases n,
{
    if n > 0 {
        lemma_read_u16_inv(d, p);
        lemma_read_u16_inv(d, p + 2);
        let (x, q) = read_tag(d, p)->Ok_0;
        lemma_has_at_split(d, p, le16(x.delta), le16(x.count));
        lemma_read_tags_inv(d, q, (n - 1) as nat);
        let (rest, r) = read_tags(d, q, (n - 1) as nat)->Ok_0;
        let t = seq![x] + rest;
        assert(t.drop_first() =~= rest);
        assert(tags_bytes(t) == tag_bytes(x) + tags_bytes(rest));
        lemma_has_at_split(d, p, tag_bytes(x), tags_bytes(rest));
    } else {
        assert(d.subrange(p, p) =~= Seq::<u8>::empty());
    }
}

proof fn lemma_read_ids_enc(d: Seq<u8>, p: int, t: Seq<u16>)
    requires
        has_at(d, p, ids_bytes(t)),
    ensures
        read_ids(d, p, t.len()) == Ok::<(Seq<u16>, int), CodecError>((t, p + ids_bytes(t).len())),
    decreases t.len(),
{
    if t.len() > 0 {
        let rest = t.drop_first();
        assert(ids_bytes(t) == le16(t[0]) + ids_bytes(rest));
        lemma_has_at_split(d, p, le16(t[0]), ids_bytes(rest));
        lemma_read_u16_le16(d, p, t[0]);
        lemma_read_ids_enc(d, p + 2, rest);
        assert(seq![t[0]] + rest =~= t);
    } else {
        assert(t =~= Seq::<u16>::empty());
    }
}

proof fn lemma_read_ids_inv(d: Seq<u8>, p: int, n: nat)
    requires
        0 <= p <= d.len(),
        read_ids(d, p, n) is Ok,
    ensures
        ({
            let (t, q) = read_ids(d, p, n)->Ok_0;
            &&& t.len() == n
            &&& has_at(d, p, ids_bytes(t))
            &&& q == p + ids_bytes(t).len()
        }),
    decreases n,
{
    if n > 0 {
        lemma_read_u16_inv(d, p);
        let (x, q) = read_u16(d, p)->Ok_0;
        lemma_read_ids_inv(d, q, (n - 1) as nat);
        let (rest, r) = read_ids(d, q, (n - 1) as nat)->Ok_0;
        let t = seq![x] + rest;
        assert(t.drop_first() =~= rest);
        assert(ids_bytes(t) == le16(x) + ids_bytes(rest));
        lemma_has_at_split(d, p, le16(x), ids_bytes(rest));
    } else {
        assert(d.subrange(p, p) =~= Seq::<u8>::empty());
    }
}

proof fn lemma_read_entry_enc(d: Seq<u8>, p: int, e: DayEntryView)
    requires
        e.authors.len() <= 65535,
        has_at(d, p, entry_bytes(e)),
    ensures
        read_entry(d, p) == Ok::<(DayEntryView, int), CodecError>((e, p + entry_bytes(e).len())),
{
    let h0 = le16(e.delta);
    let h1 = le16(e.commits);
    let h2 = le16(e.merges);
    let h3 = le16(e.authors.len() as u16);
    let ids = ids_bytes(e.authors);
    lemma_has_at_split(d, p, h0 + h1 + h2 + h3, ids);
    lemma_has_at_split(d, p, h0 + h1 + h2, h3);
    lemma_has_at_split(d, p, h0 + h1, h2);
    lemma_has_at_split(d, p, h0, h1);
    lemma_read_u16_le16(d, p, e.delta);
    lemma_read_u16_le16(d, p + 2, e.commits);
    lemma_read_u16_le16(d, p + 4, e.merges);
    lemma_read_u16_le16(d, p + 6, e.authors.len() as u16);
    lemma_read_ids_enc(d, p + 8, e.authors);
}

proof fn lemma_read_entry_inv(d: Seq<u8>, p: int)
    requires
        0 <= p,
        read_entry(d, p) is Ok,
    ensures
        ({
            let (e, q) = read_entry(d, p)->Ok_0;
            &&& e.authors.len() <= 65535
            &&& has_at(d, p, entry_bytes(e))
            &&& q == p + entry_bytes(e).len()
        }),
{
    lemma_read_u16_inv(d, p);
    lemma_read_u16_inv(d, p + 2);
    lemma_read_u16_inv(d, p + 4);
    lemma_read_u16_inv(d, p + 6);
    let n = read_u16(d, p + 6)->Ok_0.0;
    lemma_read_ids_inv(d, p + 8, n as nat);
    let (e, q) = read_entry(d, p)->Ok_0;
    let h0 = le16(e.delta);
    let h1 = le16(e.commits);
    let h2 = le16(e.merges);
    let h3 = le16(e.authors.len() as u16);
    lemma_has_at_split(d, p, h0, h1);
    lemma_has_at_split(d, p, h0 + h1, h2);
    lemma_has_at_split(d, p, h0 + h1 + h2, h3);
    lemma_has_at_split(d, p, h0 + h1 + h2 + h3, ids_bytes(e.authors));
}

proof fn lemma_read_entries_enc(d: Seq<u8>, p: int, t: Seq<DayEntryView>)
    requires
        forall|i: int| 0 <= i < t.len() ==> (#[trigger] t[i]).authors.len() <= 65535,
        has_at(d, p, entries_bytes(t)),
    ensures
        read_entries(d, p, t.len()) == Ok::<(Seq<DayEntryView>, int), CodecError>(
            (t, p + entries_bytes(t).len()),
        ),
    decreases t.len(),
{
    if t.len() > 0 {
        let rest = t.drop_first();
        assert(entries_bytes(t) == entry_bytes(t[0]) + entries_bytes(rest));
        lemma_has_at_split(d, p, entry_bytes(t[0]), entries_bytes(rest));
        lemma_read_entry_enc(d, p, t[0]);
        assert forall|i: int| 0 <= i < rest.len() implies (#[trigger] rest[i]).authors.len() <= 65535 by {
            assert(rest[i] == t[i + 1]);
        }
        lemma_read_entries_enc(d, p + entry_bytes(t[0]).len(), rest);
        assert(seq![t[0]] + rest =~= t);
    } else {
        assert(t =~= Seq::<DayEntryView>::empty());
    }
}

proof fn lemma_read_entries_inv(d: Seq<u8>, p: int, n: nat)
    requires
        0 <= p <= d.len(),
        read_entries(d, p, n) is Ok,
    ensures
        ({
            let (t, q) = read_entries(d, p, n)->Ok_0;
            &&& t.len() == n
            &&& forall|i: int| 0 <= i < t.len() ==> (#[trigger] t[i]).authors.len() <= 65535
            &&& has_at(d, p, entries_bytes(t))
            &&& q == p + entries_bytes(t).len()
        }),
    decreases n,
{
    if n > 0 {
        lemma_read_entry_inv(d, p);
        let (x, q) = read_entry(d, p)->Ok_0;
        lemma_read_entries_inv(d, q, (n - 1) as nat);
        let (rest, r) = read_entries(d, q, (n - 1) as nat)->Ok_0;
        let t = seq![x] + rest;
        assert(t.drop_first() =~= rest);
        assert(entries_bytes(t) == entry_bytes(x) + entries_bytes(rest));
        lemma_has_at_split(d, p, entry_bytes(x), entries_bytes(rest));
        assert forall|i: int| 0 <= i < t.len() implies (#[trigger] t[i]).authors.len() <= 65535 by {
            if i > 0 {
                assert(t[i] == rest[i - 1]);
            }
        }
    } else {
        assert(d.subrange(p, p) =~= Seq::<u8>::empty());
    }
}

proof fn lemma_days_roundtrip(n: u16)
    ensures
        spec_days_from_epoch(spec_days_to_date(n)) == n,
{
}

proof fn lemma_cache_layout(c: CacheView, d: Seq<u8>)
    requires
        has_at(d, 0, cache_bytes(c)),
    ensures
        d[0] == CACHE_VERSION,
        has_at(d, 1, le16(spec_days_from_epoch(c.last_updated))),
        has_at(d, 3, le16(spec_days_from_epoch(c.oldest_commit))),
        has_at(d, 5, le16(spec_days_from_epoch(c.first_entry))),
        has_at(d, 7, le16(c.authors.len() as u16)),
        has_at(d, 9, authors_bytes(c.authors)),
        has_at(d, 9 + authors_bytes(c.authors).len() as int, le16(c.tags.len() as u16)),
        has_at(d, 11 + authors_bytes(c.authors).len() as int, tags_bytes(c.tags)),
        has_at(
            d,
            11 + authors_bytes(c.authors).len() as int + tags_bytes(c.tags).len() as int,
            le16(c.entries.len() as u16),
        ),
        has_at(
            d,
            13 + authors_bytes(c.authors).len() as int + tags_bytes(c.tags).len() as int,
            entries_bytes(c.entries),
        ),
{
    let h = head_bytes(c);
    let na = le16(c.authors.len() as u16);
    let ab = authors_bytes(c.authors);
    let nt = le16(c.tags.len() as u16);
    let tb = tags_bytes(c.tags);
    let ne = le16(c.entries.len() as u16);
    let eb = entries_bytes(c.entries);
    lemma_has_at_split(d, 0, h + na + ab + nt + tb + ne, eb);
    lemma_has_at_split(d, 0, h + na + ab + nt + tb, ne);
    lemma_has_at_split(d, 0, h + na + ab + nt, tb);
    lemma_has_at_split(d, 0, h + na + ab, nt);
    lemma_has_at_split(d, 0, h + na, ab);
    lemma_has_at_split(d, 0, h, na);
    let lu = le16(spec_days_from_epoch(c.last_updated));
    let oc = le16(spec_days_from_epoch(c.oldest_commit));
    let fe = le16(spec_days_from_epoch(c.first_entry));
    lemma_has_at_split(d, 0, seq![CACHE_VERSION] + lu + oc, fe);
    lemma_has_at_split(d, 0, seq![CACHE_VERSION] + lu, oc);
    lemma_has_at_split(d, 0, seq![CACHE_VERSION], lu);
    assert(d[0] == d.subrange(0, 1)[0]);
}

proof fn lemma_components_read(c: CacheView, d: Seq<u8>)
    requires
        encode_error(c) is None,
        storable_authors(c),
        has_at(d, 0, cache_bytes(c)),
    ensures
        ({
            let p5: int = 9 + authors_bytes(c.authors).len() as int;
            let p7: int = p5 + 2 + tags_bytes(c.tags).len() as int;
            &&& read_u8(d, 0) == Ok::<(u8, int), CodecError>((CACHE_VERSION, 1))
            &&& read_u16(d, 1) == Ok::<(u16, int), CodecError>(
                (spec_days_from_epoch(c.last_updated), 3),
            )
            &&& read_u16(d, 3) == Ok::<(u16, int), CodecError>(
                (spec_days_from_epoch(c.oldest_commit), 5),
            )
            &&& read_u16(d, 5) == Ok::<(u16, int), CodecError>(
                (spec_days_from_epoch(c.first_entry), 7),
            )
            &&& read_u16(d, 7) == Ok::<(u16, int), CodecError>((c.authors.len() as u16, 9))
            &&& read_authors(d, 9, c.authors.len()) == Ok::<(Seq<Seq<char>>, int), CodecError>(
                (c.authors, p5),
            )
            &&& read_u16(d, p5) == Ok::<(u16, int), CodecError>((c.tags.len() as u16, p5 + 2))
            &&& read_tags(d, p5 + 2, c.tags.len()) == Ok::<(Seq<TagEntry>, int), CodecError>(
                (c.tags, p7),
            )
            &&& read_u16(d, p7) == Ok::<(u16, int), CodecError>((c.entries.len() as u16, p7 + 2))
            &&& read_entries(d, p7 + 2, c.entries.len()) == Ok::<
                (Seq<DayEntryView>, int),
                CodecError,
            >((c.entries, p7 + 2 + entries_bytes(c.entries).len()))
        }),
{
    lemma_cache_layout(c, d);
    let ab = authors_bytes(c.authors);
    let tb = tags_bytes(c.tags);
    lemma_read_u16_le16(d, 1, spec_days_from_epoch(c.last_updated));
    lemma_read_u16_le16(d, 3, spec_days_from_epoch(c.oldest_commit));
    lemma_read_u16_le16(d, 5, spec_days_from_epoch(c.first_entry));
    lemma_read_u16_le16(d, 7, c.authors.len() as u16);
    lemma_read_authors_enc(d, 9, c.authors);
    let p5: int = 9 + ab.len() as int;
    lemma_read_u16_le16(d, p5, c.tags.len() as u16);
    lemma_read_tags_enc(d, p5 + 2, c.tags);
    let p7: int = p5 + 2 + tb.len();
    lemma_read_u16_le16(d, p7, c.entries.len() as u16);
    assert forall|i: int| 0 <= i < c.entries.len() implies (#[trigger] c.entries[i]).authors.len()
        <= 65535 by {
        if c.entries[i].authors.len() > 65535 {
            assert(encode_error(c) == Some(CodecError::TooManyEntryAuthors));
        }
    }
    lemma_read_entries_enc(d, p7 + 2, c.entries);
}

/// Reading back what was written gives the cache again, with each date
/// clamped to the range the format holds (1980-01-01 and the 65535 days
/// after it), whatever bytes follow. This holds for every cache that
/// `encode` accepts whose author names hold no NUL character.
#[verifier::spinoff_prover]
#[verifier::rlimit(40)]
pub proof fn lemma_decode_encode(c: CacheView, tail: Seq<u8>)
    requires
        encode_error(c) is None,
        storable_authors(c),
    ensures
        read_cache(cache_bytes(c) + tail) == Ok::<CacheView, CodecError>(clamp_dates(c)),
{
    let d = cache_bytes(c) + tail;
    assert(d.subrange(0, cache_bytes(c).len() as int) =~= cache_bytes(c));
    lemma_components_read(c, d);
}

/// Whatever `decode` accepts is a cache that `encode` accepts, with dates in
/// the stored range and author names without NUL, and the data begins with
/// exactly the bytes that `encode` writes for it.
#[verifier::spinoff_prover]
#[verifier::rlimit(40)]
pub proof fn lemma_encode_decode(d: Seq<u8>)
    requires
        read_cache(d) is Ok,
    ensures
        ({
            let c = read_cache(d)->Ok_0;
            &&& encode_error(c) is None
            &&& storable_authors(c)
            &&& clamp_dates(c) == c
            &&& d == cache_bytes(c) + d.skip(cache_bytes(c).len() as int)
        }),
{
    let c = read_cache(d)->Ok_0;
    lemma_read_u16_inv(d, 1);
    lemma_read_u16_inv(d, 3);
    lemma_read_u16_inv(d, 5);
    lemma_read_u16_inv(d, 7);
    let n_a = read_u16(d, 7)->Ok_0.0;
    lemma_read_authors_inv(d, 9, n_a as nat);
    let p5 = read_authors(d, 9, n_a as nat)->Ok_0.1;
    lemma_read_u16_inv(d, p5);
    let n_t = read_u16(d, p5)->Ok_0.0;
    lemma_read_tags_inv(d, p5 + 2, n_t as nat);
    let p7 = read_tags(d, p5 + 2, n_t as nat)->Ok_0.1;
    lemma_read_u16_inv(d, p7);
    let n_e = read_u16(d, p7)->Ok_0.0;
    lemma_read_entries_inv(d, p7 + 2, n_e as nat);
    lemma_days_roundtrip(read_u16(d, 1)->Ok_0.0);
    lemma_days_roundtrip(read_u16(d, 3)->Ok_0.0);
    lemma_days_roundtrip(read_u16(d, 5)->Ok_0.0);
    assert(clamp_dates(c) == c);
    let h = head_bytes(c);
    let na = le16(c.authors.len() as u16);
    let ab = authors_bytes(c.authors);
    let nt = le16(c.tags.len() as u16);
    let tb = tags_bytes(c.tags);
    let ne = le16(c.entries.len() as u16);
    let eb = entries_bytes(c.entries);
    assert(d[0] == CACHE_VERSION);
    assert(d.subrange(0, 1) =~= seq![CACHE_VERSION]);
    let lu = le16(spec_days_from_epoch(c.last_updated));
    let oc = le16(spec_days_from_epoch(c.oldest_commit));
    let fe = le16(spec_days_from_epoch(c.first_entry));
    lemma_has_at_split(d, 0, seq![CACHE_VERSION], lu);
    lemma_has_at_split(d, 0, seq![CACHE_VERSION] + lu, oc);
    lemma_has_at_split(d, 0, seq![CACHE_VERSION] + lu + oc, fe);
    lemma_has_at_split(d, 0, h, na);
    lemma_has_at_split(d, 0, h + na, ab);
    lemma_has_at_split(d, 0, h + na + ab, nt);
    lemma_has_at_split(d, 0, h + na + ab + nt, tb);
    lemma_has_at_split(d, 0, h + na + ab + nt + tb, ne);
    lemma_has_at_split(d, 0, h + na + ab + nt + tb + ne, eb);
    let all = cache_bytes(c);
    assert(has_at(d, 0, all));
    assert(d =~= all + d.skip(all.len() as int));
}

} // verus!
