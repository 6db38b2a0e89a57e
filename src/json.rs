//! Reading a metadata document out of raw bytes with serde_json.

use vstd::prelude::*;
use crate::document::{Document, JsonObject, Scalar, lookup};

verus! {

/// Whether serde_json accepts `b` as a JSON document.
pub uninterp spec fn is_json(b: Seq<u8>) -> bool;

/// What serde_json reads under `key` of the top-level object of `b`:
/// `None` when `b` is not JSON, not an object, or has no such member.
pub uninterp spec fn json_member(b: Seq<u8>, key: Seq<char>) -> Option<Scalar>;

/// What serde_json reads under `key` of the object found under `outer` of the
/// top-level object of `b`: `None` when any step is missing.
pub uninterp spec fn json_nested_member(b: Seq<u8>, outer: Seq<char>, key: Seq<char>) -> Option<Scalar>;

/// Relies on serde_json::from_slice::<Value>: it succeeds exactly on
/// well-formed JSON, which is a property of the bytes alone.
#[verifier::external_body]
fn json_accepts(b: &[u8]) -> (r: bool)
    ensures
        r == is_json(b@),
{
    serde_json::from_slice::<serde_json::Value>(b).is_ok()
}

/// Relies on serde_json::from_slice::<Value>, Value::get with a string key,
/// and Value::as_u64: the member under `key`, as a string, a non-negative
/// 64-bit integer, or something else. The result depends on the bytes alone.
#[verifier::external_body]
fn json_member_of(b: &[u8], key: &str) -> (r: Option<Scalar>)
    ensures
        r == json_member(b@, key@),
{
    let v = serde_json::from_slice::<serde_json::Value>(b).ok()?;
    match v.get(key)? {
        serde_json::Value::String(s) => Some(Scalar::Text(s.clone())),
        m => Some(m.as_u64().map_or(Scalar::Other, Scalar::Unsigned)),
    }
}

/// Relies on the same serde_json functions as `json_member_of`, with one
/// more `Value::get` for the enclosing member `outer`.
#[verifier::external_body]
fn json_nested_member_of(b: &[u8], outer: &str, key: &str) -> (r: Option<Scalar>)
    ensures
        r == json_nested_member(b@, outer@, key@),
{
    let v = serde_json::from_slice::<serde_json::Value>(b).ok()?;
    match v.get(outer)?.get(key)? {
        serde_json::Value::String(s) => Some(Scalar::Text(s.clone())),
        m => Some(m.as_u64().map_or(Scalar::Other, Scalar::Unsigned)),
    }
}

/// The keys that record extraction reads.
pub open spec fn recognised_keys() -> Seq<Seq<char>> {
    seq!["p"@, "duration"@, "loadedSize"@, "cid"@, "bvid"@, "groupTitle"@, "title"@, "tabName"@]
}

/// The member of the episode-info object.
pub open spec fn ep_info_key() -> Seq<char> {
    "epInfo"@
}

/// What the document holds under `key`: at top level, or inside the episode info.
pub open spec fn member_at(b: Seq<u8>, in_ep: bool, key: Seq<char>) -> Option<Scalar> {
    if in_ep {
        json_nested_member(b, ep_info_key(), key)
    } else {
        json_member(b, key)
    }
}

/// `o` holds exactly the recognised members that serde_json reads from `b`
/// (at top level, or inside the episode info), and nothing else.
pub open spec fn object_reads(b: Seq<u8>, in_ep: bool, o: JsonObject) -> bool {
    forall|k: Seq<char>| #[trigger] lookup(o.entries@, k) == if recognised_keys().contains(k) {
        member_at(b, in_ep, k)
    } else {
        None
    }
}

/// `d` is the document that serde_json reads from `b`.
pub open spec fn document_reads(b: Seq<u8>, d: Document) -> bool {
    &&& object_reads(b, false, d.root)
    &&& (d.ep_info is Some <==> json_member(b, ep_info_key()) is Some)
    &&& d.ep_info is Some ==> object_reads(b, true, d.ep_info.unwrap())
}

proof fn lemma_lookup_push(s: Seq<(String, Scalar)>, kv: (String, Scalar), key: Seq<char>)
    ensures
        lookup(s.push(kv), key) == if lookup(s, key) is Some {
            lookup(s, key)
        } else if kv.0@ == key {
            Some(kv.1)
        } else {
            None
        },
    decreases s.len(),
{
    let t = s.push(kv);
    assert(t[0] == if s.len() > 0 { s[0] } else { kv });
    if s.len() > 0 {
        assert(t.drop_first() =~= s.drop_first().push(kv));
        lemma_lookup_push(s.drop_first(), kv, key);
    } else {
        assert(t.drop_first() =~= Seq::<(String, Scalar)>::empty());
        assert(lookup(t.drop_first(), key) is None);
    }
}

/// The recognised members of the top-level object of `b`, or of its episode info.
fn read_object(b: &[u8], in_ep: bool) -> (r: JsonObject)
    ensures
        object_reads(b@, in_ep, r),
{
    let keys: Vec<&str> = vec!["p", "duration", "loadedSize", "cid", "bvid", "groupTitle", "title", "tabName"];
    let ghost ks = recognised_keys();
    assert(keys@.map_values(|s: &str| s@) =~= ks);
    let mut entries: Vec<(String, Scalar)> = Vec::new();
    let mut i: usize = 0;
    while i < keys.len()
        invariant
            keys@.map_values(|s: &str| s@) == ks,
            ks == recognised_keys(),
            0 <= i <= keys@.len(),
            forall|k: Seq<char>| #[trigger] lookup(entries@, k) == if ks.subrange(0, i as int).contains(k) {
                member_at(b@, in_ep, k)
            } else {
                None
            },
        decreases keys@.len() - i,
    {
        let key = keys[i];
        assert(ks[i as int] == key@);
        let v = if in_ep {
            json_nested_member_of(b, "epInfo", key)
        } else {
            json_member_of(b, key)
        };
        let ghost before = entries@;
        if let Some(s) = v {
            entries.push((key.to_owned(), s));
        }
        proof {
            assert(ks.subrange(0, i + 1) =~= ks.subrange(0, i as int).push(key@));
            assert forall|k: Seq<char>| #[trigger] lookup(entries@, k) == if ks.subrange(0, i + 1).contains(k) {
                member_at(b@, in_ep, k)
            } else {
                None
            } by {
                let pre = ks.subrange(0, i as int);
                assert(pre.push(key@).contains(k) <==> (pre.contains(k) || k == key@)) by {
                    if pre.push(key@).contains(k) && k != key@ {
                        let j = choose|j: int| 0 <= j < pre.push(key@).len() && pre.push(key@)[j] == k;
                        assert(pre[j] == k);
                    }
                    if pre.contains(k) {
                        let j = choose|j: int| 0 <= j < pre.len() && pre[j] == k;
                        assert(pre.push(key@)[j] == k);
                    }
                    assert(pre.push(key@)[pre.len() as int] == key@);
                }
                if v is Some {
                    lemma_lookup_push(before, entries@.last(), k);
                    assert(before.push(entries@.last()) =~= entries@);
                }
            }
        }
        i = i + 1;
    }
    assert(ks.subrange(0, ks.len() as int) =~= ks);
    JsonObject { entries }
}

/// Parses the bytes of a metadata file: `None` exactly when they are not
/// JSON, else the document that serde_json reads from them.
pub fn parse_document(bytes: &[u8]) -> (r: Option<Document>)
    ensures
        r is Some <==> is_json(bytes@),
        r is Some ==> document_reads(bytes@, r.unwrap()),
{
    if !json_accepts(bytes) {
        return None;
    }
    let root = read_object(bytes, false);
    let ep_info = match json_member_of(bytes, "epInfo") {
        Some(_) => Some(read_object(bytes, true)),
        None => None,
    };
    Some(Document { root, ep_info })
}

} // verus!
