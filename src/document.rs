//! A typed, forgiving view of a metadata document: the scalar fields that the
//! record extraction reads, keyed by name, and the optional nested episode-info
//! object.

use vstd::prelude::*;

verus! {

/// The text stored for a string field that a document does not carry: `<unknown>`.
pub open spec fn unknown_marker() -> Seq<char> {
    seq!['<', 'u', 'n', 'k', 'n', 'o', 'w', 'n', '>']
}

/// A fresh copy of the unknown marker.
pub fn unknown() -> (r: String)
    ensures
        r@ == unknown_marker(),
{
    proof {
        reveal_strlit("<unknown>");
    }
    let r = "<unknown>".to_owned();
    assert(r@ =~= unknown_marker());
    r
}

/// A field value, as far as extraction cares about it.
pub enum Scalar {
    /// A JSON string.
    Text(String),
    /// A JSON number that is a non-negative integer fitting in 64 bits.
    Unsigned(u64),
    /// Anything else (null, boolean, negative or fractional number, array, object).
    Other,
}

/// The fields of one JSON object, in the order they were read.
pub struct JsonObject {
    pub entries: Vec<(String, Scalar)>,
}

/// One parsed metadata document: its top-level object and, if the document
/// has an `epInfo` member, that member's fields (empty when it is not an object).
pub struct Document {
    pub root: JsonObject,
    pub ep_info: Option<JsonObject>,
}

/// The value stored under `key`: the first entry with that key.
pub open spec fn lookup(entries: Seq<(String, Scalar)>, key: Seq<char>) -> Option<Scalar>
    decreases entries.len(),
{
    if entries.len() == 0 {
        None
    } else if entries[0].0@ == key {
        Some(entries[0].1)
    } else {
        lookup(entries.drop_first(), key)
    }
}

/// The string stored under `key`, if the value there is a string.
pub open spec fn str_field(o: JsonObject, key: Seq<char>) -> Option<Seq<char>> {
    match lookup(o.entries@, key) {
        Some(Scalar::Text(s)) => Some(s@),
        _ => None,
    }
}

/// The unsigned integer stored under `key`, if the value there is one.
pub open spec fn u64_field(o: JsonObject, key: Seq<char>) -> Option<u64> {
    match lookup(o.entries@, key) {
        Some(Scalar::Unsigned(n)) => Some(n),
        _ => None,
    }
}

/// The unsigned integer stored under `key`, if it is one and fits in 32 bits.
pub open spec fn u32_field(o: JsonObject, key: Seq<char>) -> Option<u32> {
    match u64_field(o, key) {
        Some(n) if n <= u32::MAX => Some(n as u32),
        _ => None,
    }
}

/// A string field read from the episode info first, then from the outer
/// object, else the unknown marker.
pub open spec fn preferred_str(obj: JsonObject, ep_info: Option<JsonObject>, key: Seq<char>) -> Seq<char> {
    if ep_info is Some && str_field(ep_info.unwrap(), key) is Some {
        str_field(ep_info.unwrap(), key).unwrap()
    } else if str_field(obj, key) is Some {
        str_field(obj, key).unwrap()
    } else {
        unknown_marker()
    }
}

/// A string field of `obj`, else the unknown marker.
pub open spec fn outer_str(obj: JsonObject, key: Seq<char>) -> Seq<char> {
    match str_field(obj, key) {
        Some(s) => s,
        None => unknown_marker(),
    }
}

/// A 32-bit field of `obj`, else zero.
pub open spec fn u32_or_zero(obj: JsonObject, key: Seq<char>) -> u32 {
    match u32_field(obj, key) {
        Some(n) => n,
        None => 0,
    }
}

/// A 64-bit field of `obj`, else zero.
pub open spec fn u64_or_zero(obj: JsonObject, key: Seq<char>) -> u64 {
    match u64_field(obj, key) {
        Some(n) => n,
        None => 0,
    }
}

proof fn lemma_lookup_skip(entries: Seq<(String, Scalar)>, i: int, key: Seq<char>)
    requires
        0 <= i < entries.len(),
        entries[i].0@ != key,
    ensures
        lookup(entries.subrange(i, entries.len() as int), key)
            == lookup(entries.subrange(i + 1, entries.len() as int), key),
{
    let s = entries.subrange(i, entries.len() as int);
    assert(s.drop_first() =~= entries.subrange(i + 1, entries.len() as int));
}

/// Finds the value stored under `key`.
pub fn lookup_entry<'a>(o: &'a JsonObject, key: &str) -> (r: Option<&'a Scalar>)
    ensures
        match r {
            Some(v) => lookup(o.entries@, key@) == Some(*v),
            None => lookup(o.entries@, key@) is None,
        },
{
    let n = o.entries.len();
    let mut i: usize = 0;
    assert(o.entries@.subrange(0, n as int) =~= o.entries@);
    while i < n
        invariant
            n == o.entries@.len(),
            0 <= i <= n,
            lookup(o.entries@, key@) == lookup(o.entries@.subrange(i as int, n as int), key@),
        decreases n - i,
    {
        let entry = &o.entries[i];
        if str_eq(entry.0.as_str(), key) {
            return Some(&entry.1);
        }
        proof {
            lemma_lookup_skip(o.entries@, i as int, key@);
        }
        i = i + 1;
    }
    None
}

/// Whether two strings hold the same characters.
pub fn str_eq(a: &str, b: &str) -> (r: bool)
    ensures
        r == (a@ == b@),
{
    let x = a.to_owned();
    let y = b.to_owned();
    x == y
}

/// The string stored under `key`, if the value there is a string.
pub fn get_str(o: &JsonObject, key: &str) -> (r: Option<String>)
    ensures
        match r {
            Some(s) => str_field(*o, key@) == Some(s@),
            None => str_field(*o, key@) is None,
        },
{
    match lookup_entry(o, key) {
        Some(Scalar::Text(s)) => Some(s.clone()),
        _ => None,
    }
}

/// The unsigned integer stored under `key`, if the value there is one.
pub fn get_u64(o: &JsonObject, key: &str) -> (r: Option<u64>)
    ensures
        r == u64_field(*o, key@),
{
    match lookup_entry(o, key) {
        Some(Scalar::Unsigned(n)) => Some(*n),
        _ => None,
    }
}

/// The unsigned integer stored under `key`, if it is one and fits in 32 bits.
pub fn get_u32(o: &JsonObject, key: &str) -> (r: Option<u32>)
    ensures
        r == u32_field(*o, key@),
{
    match get_u64(o, key) {
        Some(n) => if n <= u32::MAX as u64 {
            Some(n as u32)
        } else {
            None
        },
        None => None,
    }
}

/// Reads a string field, preferring the episode info over the outer object;
/// a field found in neither reads as the unknown marker.
pub fn extract_str(obj: &JsonObject, ep_info: Option<&JsonObject>, key: &str) -> (r: String)
    ensures
        r@ == preferred_str(*obj, match ep_info { Some(e) => Some(*e), None => None }, key@),
{
    if let Some(ep) = ep_info {
        if let Some(v) = get_str(ep, key) {
            return v;
        }
    }
    match get_str(obj, key) {
        Some(v) => v,
        None => unknown(),
    }
}

/// Reads a string field of `obj` alone, else the unknown marker.
pub fn extract_outer_str(obj: &JsonObject, key: &str) -> (r: String)
    ensures
        r@ == outer_str(*obj, key@),
{
    match get_str(obj, key) {
        Some(v) => v,
        None => unknown(),
    }
}

/// Reads a 32-bit unsigned field of `obj`; absent, non-numeric or too large reads as zero.
pub fn extract_u32_from_obj(obj: &JsonObject, key: &str) -> (r: u32)
    ensures
        r == u32_or_zero(*obj, key@),
{
    match get_u32(obj, key) {
        Some(n) => n,
        None => 0,
    }
}

/// Reads a 64-bit unsigned field of `obj`; absent or non-numeric reads as zero.
pub fn extract_u64_from_obj(obj: &JsonObject, key: &str) -> (r: u64)
    ensures
        r == u64_or_zero(*obj, key@),
{
    match get_u64(obj, key) {
        Some(n) => n,
        None => 0,
    }
}

} // verus!
