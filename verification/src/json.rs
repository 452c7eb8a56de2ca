//! The JSON documents the collector reads, as plain data.
//!
//! Only what the logic looks at is kept: numbers are either unsigned
//! 64-bit integers or something else (negative or fractional), and an
//! object keeps its members in order.
use vstd::prelude::*;

use crate::text::str_eq;

verus! {

/// A JSON value.
#[derive(Debug)]
pub enum Json {
    Null,
    Bool(bool),
    /// A number that is an unsigned 64-bit integer.
    UInt(u64),
    /// Any other number: negative, fractional or too large.
    OtherNumber,
    Str(String),
    Array(Vec<Json>),
    Object(Vec<(String, Json)>),
}

/// The value of the first member named `key`, `Null` when there is none.
pub open spec fn member(entries: Seq<(String, Json)>, key: Seq<char>) -> Json
    decreases entries.len(),
{
    if entries.len() == 0 {
        Json::Null
    } else if entries[0].0@ == key {
        entries[0].1
    } else {
        member(entries.drop_first(), key)
    }
}

impl Json {
    /// `value[key]`: the member of an object, `Null` for anything else.
    pub open spec fn at(self, key: Seq<char>) -> Json {
        match self {
            Json::Object(m) => member(m@, key),
            _ => Json::Null,
        }
    }

    pub open spec fn bool_of(self) -> Option<bool> {
        match self {
            Json::Bool(b) => Some(b),
            _ => None,
        }
    }

    pub open spec fn u64_of(self) -> Option<u64> {
        match self {
            Json::UInt(n) => Some(n),
            _ => None,
        }
    }

    pub open spec fn str_of(self) -> Option<Seq<char>> {
        match self {
            Json::Str(s) => Some(s@),
            _ => None,
        }
    }

    /// The member `key` of an object; `None` stands for `Null`.
    pub fn get(&self, key: &str) -> (r: Option<&Json>)
        ensures
            match r {
                Some(v) => *v == self.at(key@),
                None => self.at(key@) == Json::Null,
            },
    {
        match self {
            Json::Object(m) => {
                let mut i: usize = 0;
                assert(m@.skip(0) =~= m@);
                while i < m.len()
                    invariant
                        i <= m@.len(),
                        self.at(key@) == member(m@, key@),
                        member(m@, key@) == member(m@.skip(i as int), key@),
                    decreases m.len() - i,
                {
                    assert(m@.skip(i as int).drop_first() =~= m@.skip(i + 1));
                    if str_eq(m[i].0.as_str(), key) {
                        assert(m@.skip(i as int)[0] == m@[i as int]);
                        return Some(&m[i].1);
                    }
                    i += 1;
                }
                assert(m@.skip(i as int) =~= Seq::<(String, Json)>::empty());
                None
            },
            _ => None,
        }
    }

    /// `Value::as_bool`.
    pub fn as_bool(&self) -> (r: Option<bool>)
        ensures
            r == self.bool_of(),
    {
        match self {
            Json::Bool(b) => Some(*b),
            _ => None,
        }
    }

    /// `Value::as_u64`.
    pub fn as_u64(&self) -> (r: Option<u64>)
        ensures
            r == self.u64_of(),
    {
        match self {
            Json::UInt(n) => Some(*n),
            _ => None,
        }
    }

    /// `Value::as_str`.
    pub fn as_str(&self) -> (r: Option<&str>)
        ensures
            match r {
                Some(s) => self.str_of() == Some(s@),
                None => self.str_of() is None,
            },
    {
        match self {
            Json::Str(s) => Some(s.as_str()),
            _ => None,
        }
    }

    /// `Value::is_null`.
    pub fn is_null(&self) -> (r: bool)
        ensures
            r == (*self == Json::Null),
    {
        match self {
            Json::Null => true,
            _ => false,
        }
    }
}

/// `value[key]` read as an unsigned integer.
pub open spec fn u64_at(v: Json, key: Seq<char>) -> Option<u64> {
    v.at(key).u64_of()
}

/// `value[key].as_u64()`.
pub fn get_u64(v: &Json, key: &str) -> (r: Option<u64>)
    ensures
        r == v.at(key@).u64_of(),
{
    match v.get(key) {
        Some(x) => x.as_u64(),
        None => None,
    }
}

/// `value[outer][inner].as_u64()`.
pub fn get_u64_in(v: &Json, outer: &str, inner: &str) -> (r: Option<u64>)
    ensures
        r == v.at(outer@).at(inner@).u64_of(),
{
    match v.get(outer) {
        Some(x) => get_u64(x, inner),
        None => None,
    }
}

/// `value[key].as_str()`, copied.
pub fn get_str(v: &Json, key: &str) -> (r: Option<String>)
    ensures
        match r {
            Some(s) => v.at(key@).str_of() == Some(s@),
            None => v.at(key@).str_of() is None,
        },
{
    match v.get(key) {
        Some(x) => match x.as_str() {
            Some(s) => Some(s.to_string()),
            None => None,
        },
        None => None,
    }
}

} // verus!
